//! The matching algorithm and its mathematical model.
//!
//! `add_spec` is the definition of what adding one order to a book does: it
//! sweeps the opposite side best price first, consuming each level's queue
//! front first, and rests any remaining quantity at the order's limit price.
//! The executable `OrderBook::add` returns exactly the fills of `add_spec`
//! and leaves the book in exactly its resulting state.

use vstd::prelude::*;

use crate::book::BookV;
use crate::book::Fill;
use crate::book::FillV;
use crate::book::LevelV;
use crate::book::Order;
use crate::book::OrderBook;
use crate::book::RestV;
use crate::book::RestingOrder;
use crate::book::Side;
use crate::book::Level;

verus! {

/// The sum of the fill quantities of a fill sequence.
pub open spec fn sum_fill_qty(fs: Seq<FillV>) -> int
    decreases fs.len(),
{
    if fs.len() == 0 {
        0
    } else {
        fs[0].qty + sum_fill_qty(fs.drop_first())
    }
}

/// The resting order an order leaves behind when `rem` of its quantity did
/// not fill.
pub open spec fn rest_of(o: crate::book::OrderV, rem: int) -> RestV {
    RestV { seq: o.seq, side: o.side, price: o.price, qty: rem, cid: o.cid }
}

/// Sweeps the ask side (sorted ascending, best ask first) with a buy order
/// limited at `limit`: while quantity remains and the best ask does not
/// exceed the limit, consume the best level's queue front first. Returns the
/// asks after the sweep, the fills in emission order, and the unfilled
/// remainder.
pub open spec fn sweep_asks(asks: Seq<LevelV>, limit: int, taker_seq: int, rem: int) -> (
    Seq<LevelV>,
    Seq<FillV>,
    int,
)
    decreases asks.len(), (if asks.len() > 0 {
        asks[0].queue.len()
    } else {
        0
    }),
{
    if rem <= 0 || asks.len() == 0 || limit < asks[0].price {
        (asks, Seq::<FillV>::empty(), rem)
    } else {
        let lvl = asks[0];
        let front = lvl.queue[0];
        if rem < front.qty {
            let front2 = RestV { qty: front.qty - rem, ..front };
            let lvl2 = LevelV { price: lvl.price, queue: lvl.queue.update(0, front2) };
            let fill = FillV { maker_seq: front.seq, taker_seq, price: lvl.price, qty: rem };
            (asks.update(0, lvl2), seq![fill], 0)
        } else {
            let asks2 = if lvl.queue.len() <= 1 {
                asks.drop_first()
            } else {
                asks.update(0, LevelV { price: lvl.price, queue: lvl.queue.drop_first() })
            };
            let fill = FillV { maker_seq: front.seq, taker_seq, price: lvl.price, qty: front.qty };
            let r = sweep_asks(asks2, limit, taker_seq, rem - front.qty);
            (r.0, seq![fill] + r.1, r.2)
        }
    }
}

/// Sweeps the bid side (sorted ascending, best bid last) with a sell order
/// limited at `limit`: the mirror image of `sweep_asks`.
pub open spec fn sweep_bids(bids: Seq<LevelV>, limit: int, taker_seq: int, rem: int) -> (
    Seq<LevelV>,
    Seq<FillV>,
    int,
)
    decreases bids.len(), (if bids.len() > 0 {
        bids.last().queue.len()
    } else {
        0
    }),
{
    if rem <= 0 || bids.len() == 0 || limit > bids.last().price {
        (bids, Seq::<FillV>::empty(), rem)
    } else {
        let k = bids.len() - 1;
        let lvl = bids.last();
        let front = lvl.queue[0];
        if rem < front.qty {
            let front2 = RestV { qty: front.qty - rem, ..front };
            let lvl2 = LevelV { price: lvl.price, queue: lvl.queue.update(0, front2) };
            let fill = FillV { maker_seq: front.seq, taker_seq, price: lvl.price, qty: rem };
            (bids.update(k, lvl2), seq![fill], 0)
        } else {
            let bids2 = if lvl.queue.len() <= 1 {
                bids.drop_last()
            } else {
                bids.update(k, LevelV { price: lvl.price, queue: lvl.queue.drop_first() })
            };
            let fill = FillV { maker_seq: front.seq, taker_seq, price: lvl.price, qty: front.qty };
            let r = sweep_bids(bids2, limit, taker_seq, rem - front.qty);
            (r.0, seq![fill] + r.1, r.2)
        }
    }
}

/// Rests an order in a side sorted by ascending price: append to the queue of
/// its price level if the level exists, otherwise insert a fresh level at the
/// sorted position.
pub open spec fn rest_into(ls: Seq<LevelV>, r: RestV) -> Seq<LevelV>
    decreases ls.len(),
{
    if ls.len() == 0 {
        seq![LevelV { price: r.price, queue: seq![r] }]
    } else if ls[0].price < r.price {
        seq![ls[0]] + rest_into(ls.drop_first(), r)
    } else if ls[0].price == r.price {
        ls.update(0, LevelV { price: ls[0].price, queue: ls[0].queue.push(r) })
    } else {
        seq![LevelV { price: r.price, queue: seq![r] }] + ls
    }
}

/// What adding an order to a book does: nothing when the order is invalid;
/// otherwise sweep the opposite side and rest any remainder at the order's
/// limit price. Returns the resulting book and the fills in emission order.
pub open spec fn add_spec(b: BookV, o: crate::book::OrderV) -> (BookV, Seq<FillV>) {
    if o.qty <= 0 || o.price < 0 {
        (b, Seq::<FillV>::empty())
    } else if o.side == Side::Buy {
        let r = sweep_asks(b.asks, o.price, o.seq, o.qty);
        let bids2 = if r.2 > 0 {
            rest_into(b.bids, rest_of(o, r.2))
        } else {
            b.bids
        };
        (BookV { bids: bids2, asks: r.0 }, r.1)
    } else {
        let r = sweep_bids(b.bids, o.price, o.seq, o.qty);
        let asks2 = if r.2 > 0 {
            rest_into(b.asks, rest_of(o, r.2))
        } else {
            b.asks
        };
        (BookV { bids: r.0, asks: asks2 }, r.1)
    }
}

/// Whether a maker with sequence number `mseq` rests at price `price`
/// somewhere in the given side.
pub open spec fn maker_in(ls: Seq<LevelV>, mseq: int, price: int) -> bool {
    exists|l: int, k: int|
        0 <= l < ls.len() && 0 <= k < ls[l].queue.len() && ls[l].queue[k].seq == mseq && (
        #[trigger] ls[l].queue[k]).price == price
}

/// What holds of every fill a sweep emits: positive quantity, the taker's
/// sequence number, a price within the taker's limit, and a price that is the
/// resting price of the maker it names.
pub open spec fn fill_from_sweep(ls: Seq<LevelV>, taker_seq: int, f: FillV) -> bool {
    &&& f.qty > 0
    &&& f.taker_seq == taker_seq
    &&& f.price >= 0
    &&& maker_in(ls, f.maker_seq, f.price)
}

proof fn lemma_sum_cons(f: FillV, fs: Seq<FillV>)
    ensures
        sum_fill_qty(seq![f] + fs) == f.qty + sum_fill_qty(fs),
{
    let c = seq![f] + fs;
    assert(c.drop_first() =~= fs);
    assert(c[0] == f);
}

proof fn lemma_side_wf_drop_first(ls: Seq<LevelV>, side: Side)
    requires
        crate::book::side_wf(ls, side),
        ls.len() > 0,
    ensures
        crate::book::side_wf(ls.drop_first(), side),
{
    let d = ls.drop_first();
    assert forall|i: int| 0 <= i < d.len() implies crate::book::level_wf(#[trigger] d[i], side)
        && d[i].price >= 0 by {
        assert(d[i] == ls[i + 1]);
    }
    assert forall|i: int, j: int|
        #![trigger d[i].price, d[j].price]
        0 <= i < j < d.len() implies d[i].price < d[j].price by {
        assert(d[i] == ls[i + 1]);
        assert(d[j] == ls[j + 1]);
    }
}

pub(crate) proof fn lemma_side_wf_drop_last(ls: Seq<LevelV>, side: Side)
    requires
        crate::book::side_wf(ls, side),
        ls.len() > 0,
    ensures
        crate::book::side_wf(ls.drop_last(), side),
{
    let d = ls.drop_last();
    assert forall|i: int| 0 <= i < d.len() implies crate::book::level_wf(#[trigger] d[i], side)
        && d[i].price >= 0 by {
        assert(d[i] == ls[i]);
    }
}

/// Popping the front order of the level at index `k` (which has more than one
/// order) keeps a side well formed.
proof fn lemma_side_wf_pop_front(ls: Seq<LevelV>, side: Side, k: int)
    requires
        crate::book::side_wf(ls, side),
        0 <= k < ls.len(),
        ls[k].queue.len() > 1,
    ensures
        crate::book::side_wf(
            ls.update(k, LevelV { price: ls[k].price, queue: ls[k].queue.drop_first() }),
            side,
        ),
{
    let lvl2 = LevelV { price: ls[k].price, queue: ls[k].queue.drop_first() };
    let u = ls.update(k, lvl2);
    assert forall|i: int| 0 <= i < u.len() implies crate::book::level_wf(#[trigger] u[i], side)
        && u[i].price >= 0 by {
        if i == k {
            let q = ls[k].queue;
            let d = q.drop_first();
            assert forall|m: int| 0 <= m < d.len() implies {
                &&& (#[trigger] d[m]).price == lvl2.price
                &&& d[m].qty > 0
                &&& d[m].side == side
            } by {
                assert(d[m] == q[m + 1]);
            }
            assert forall|m: int, n: int|
                #![trigger d[m].seq, d[n].seq]
                0 <= m < n < d.len() implies d[m].seq < d[n].seq by {
                assert(d[m] == q[m + 1]);
                assert(d[n] == q[n + 1]);
            }
        }
    }
}

/// Reducing the remaining quantity of the front order of the level at index
/// `k` to a smaller positive value keeps a side well formed.
proof fn lemma_side_wf_reduce_front(ls: Seq<LevelV>, side: Side, k: int, q2: int)
    requires
        crate::book::side_wf(ls, side),
        0 <= k < ls.len(),
        ls[k].queue.len() > 0,
        0 < q2 < ls[k].queue[0].qty,
    ensures
        crate::book::side_wf(
            ls.update(
                k,
                LevelV {
                    price: ls[k].price,
                    queue: ls[k].queue.update(0, RestV { qty: q2, ..ls[k].queue[0] }),
                },
            ),
            side,
        ),
{
    let front2 = RestV { qty: q2, ..ls[k].queue[0] };
    let lvl2 = LevelV { price: ls[k].price, queue: ls[k].queue.update(0, front2) };
    let u = ls.update(k, lvl2);
    assert forall|i: int| 0 <= i < u.len() implies crate::book::level_wf(#[trigger] u[i], side)
        && u[i].price >= 0 by {
        if i == k {
            let q = ls[k].queue;
            let d = q.update(0, front2);
            assert(forall|m: int|
                0 <= m < d.len() ==> {
                    &&& (#[trigger] d[m]).price == lvl2.price
                    &&& d[m].qty > 0
                    &&& d[m].side == side
                });
            assert(forall|m: int, n: int|
                #![trigger d[m].seq, d[n].seq]
                0 <= m < n < d.len() ==> d[m].seq < d[n].seq);
        }
    }
}

/// Every maker of a side stays a maker after the front order of the level at
/// index `k` is removed (with the level deleted when it empties).
proof fn lemma_maker_in_after_pop(ls: Seq<LevelV>, k: int, mseq: int, price: int)
    requires
        0 <= k < ls.len(),
        ls[k].queue.len() > 0,
        maker_in(
            if ls[k].queue.len() <= 1 {
                ls.remove(k)
            } else {
                ls.update(k, LevelV { price: ls[k].price, queue: ls[k].queue.drop_first() })
            },
            mseq,
            price,
        ),
    ensures
        maker_in(ls, mseq, price),
{
    if ls[k].queue.len() <= 1 {
        let r = ls.remove(k);
        let (l, m): (int, int) = choose|l: int, m: int|
            0 <= l < r.len() && 0 <= m < r[l].queue.len() && r[l].queue[m].seq == mseq && (
            #[trigger] r[l].queue[m]).price == price;
        let l0 = if l < k {
            l
        } else {
            l + 1
        };
        assert(ls[l0] == r[l]);
        assert(ls[l0].queue[m].seq == mseq && ls[l0].queue[m].price == price);
    } else {
        let u = ls.update(k, LevelV { price: ls[k].price, queue: ls[k].queue.drop_first() });
        let (l, m): (int, int) = choose|l: int, m: int|
            0 <= l < u.len() && 0 <= m < u[l].queue.len() && u[l].queue[m].seq == mseq && (
            #[trigger] u[l].queue[m]).price == price;
        if l == k {
            assert(u[l].queue[m] == ls[k].queue[m + 1]);
            assert(ls[k].queue[m + 1].seq == mseq && ls[k].queue[m + 1].price == price);
        } else {
            assert(ls[l] == u[l]);
            assert(ls[l].queue[m].seq == mseq && ls[l].queue[m].price == price);
        }
    }
}

/// What a sweep of the ask side guarantees: the side stays well formed and
/// only loses liquidity from the front, quantity is conserved, every fill
/// names a maker resting at the fill's price within the taker's limit, fills
/// sweep upward in price, and fills at one price consume makers in strictly
/// ascending sequence order.
pub proof fn lemma_sweep_asks(asks: Seq<LevelV>, limit: int, taker_seq: int, rem: int)
    requires
        crate::book::side_wf(asks, Side::Sell),
        rem >= 0,
    ensures
        ({
            let (a2, fs, r2) = sweep_asks(asks, limit, taker_seq, rem);
            &&& crate::book::side_wf(a2, Side::Sell)
            &&& 0 <= r2 <= rem
            &&& sum_fill_qty(fs) + r2 == rem
            &&& a2.len() > 0 ==> asks.len() > 0 && a2[0].price >= asks[0].price
            &&& r2 > 0 ==> a2.len() == 0 || limit < a2[0].price
            &&& forall|i: int|
                0 <= i < fs.len() ==> fill_from_sweep(asks, taker_seq, #[trigger] fs[i])
                    && fs[i].price <= limit
            &&& asks.len() > 0 ==> forall|i: int|
                0 <= i < fs.len() ==> (#[trigger] fs[i]).price >= asks[0].price && (fs[i].price
                    == asks[0].price ==> fs[i].maker_seq >= asks[0].queue[0].seq)
            &&& forall|i: int, j: int|
                #![trigger fs[i].price, fs[j].price]
                0 <= i < j < fs.len() ==> fs[i].price <= fs[j].price && (fs[i].price == fs[j].price
                    ==> fs[i].maker_seq < fs[j].maker_seq)
        }),
    decreases asks.len(), (if asks.len() > 0 {
        asks[0].queue.len()
    } else {
        0
    }),
{
    if rem <= 0 || asks.len() == 0 || limit < asks[0].price {
        assert(sum_fill_qty(Seq::<FillV>::empty()) == 0);
    } else {
        let lvl = asks[0];
        let front = lvl.queue[0];
        if rem < front.qty {
            let front2 = RestV { qty: front.qty - rem, ..front };
            lemma_side_wf_reduce_front(asks, Side::Sell, 0, front.qty - rem);
            let fill = FillV { maker_seq: front.seq, taker_seq, price: lvl.price, qty: rem };
            let fs = seq![fill];
            assert(fs.drop_first() =~= Seq::<FillV>::empty());
            assert(sum_fill_qty(fs) == fill.qty + sum_fill_qty(Seq::<FillV>::empty()));
            assert(sum_fill_qty(Seq::<FillV>::empty()) == 0);
            assert(maker_in(asks, front.seq, lvl.price));
        } else {
            let asks2 = if lvl.queue.len() <= 1 {
                asks.drop_first()
            } else {
                asks.update(0, LevelV { price: lvl.price, queue: lvl.queue.drop_first() })
            };
            if lvl.queue.len() <= 1 {
                lemma_side_wf_drop_first(asks, Side::Sell);
            } else {
                lemma_side_wf_pop_front(asks, Side::Sell, 0);
            }
            let fill = FillV { maker_seq: front.seq, taker_seq, price: lvl.price, qty: front.qty };
            let r = sweep_asks(asks2, limit, taker_seq, rem - front.qty);
            lemma_sweep_asks(asks2, limit, taker_seq, rem - front.qty);
            lemma_sum_cons(fill, r.1);
            let fs = seq![fill] + r.1;
            assert(maker_in(asks, front.seq, lvl.price));
            // every fill of the recursive sweep names a maker of the original side
            assert forall|i: int| 0 <= i < fs.len() implies fill_from_sweep(
                asks,
                taker_seq,
                #[trigger] fs[i],
            ) && fs[i].price <= limit by {
                if i > 0 {
                    assert(fs[i] == r.1[i - 1]);
                    assert(fill_from_sweep(asks2, taker_seq, r.1[i - 1]));
                    assert(asks.drop_first() =~= asks.remove(0));
                    lemma_maker_in_after_pop(asks, 0, fs[i].maker_seq, fs[i].price);
                }
            }
            // fills of the recursive sweep sit at or above this level's price,
            // and at this price their makers arrived after the front
            assert forall|i: int| 0 <= i < fs.len() implies (#[trigger] fs[i]).price
                >= asks[0].price && (fs[i].price == asks[0].price ==> fs[i].maker_seq
                >= asks[0].queue[0].seq) by {
                if i > 0 {
                    let g = r.1[i - 1];
                    assert(fs[i] == g);
                    if asks2.len() > 0 {
                        assert(g.price >= asks2[0].price);
                        if lvl.queue.len() <= 1 {
                            // the whole level went away; later fills are strictly above
                            assert(asks2[0] == asks[1]);
                            assert(asks[0].price < asks[1].price);
                        } else {
                            assert(asks2[0].price == asks[0].price);
                            if g.price == asks[0].price {
                                assert(g.maker_seq >= asks2[0].queue[0].seq);
                                assert(asks2[0].queue[0] == lvl.queue[1]);
                                assert(lvl.queue[0].seq < lvl.queue[1].seq);
                            }
                        }
                    }
                }
            }
            // pairwise ordering of the combined fill sequence
            assert forall|i: int, j: int|
                #![trigger fs[i].price, fs[j].price]
                0 <= i < j < fs.len() implies fs[i].price <= fs[j].price && (fs[i].price
                == fs[j].price ==> fs[i].maker_seq < fs[j].maker_seq) by {
                if i == 0 {
                    let g = r.1[j - 1];
                    assert(fs[j] == g);
                    if asks2.len() > 0 {
                        assert(g.price >= asks2[0].price);
                        if lvl.queue.len() <= 1 {
                            assert(asks2[0] == asks[1]);
                            assert(asks[0].price < asks[1].price);
                        } else {
                            assert(asks2[0].price == asks[0].price);
                            if g.price == asks[0].price {
                                assert(g.maker_seq >= asks2[0].queue[0].seq);
                                assert(asks2[0].queue[0] == lvl.queue[1]);
                                assert(lvl.queue[0].seq < lvl.queue[1].seq);
                            }
                        }
                    } else {
                        assert(r.1.len() == 0);
                    }
                } else {
                    assert(fs[i] == r.1[i - 1]);
                    assert(fs[j] == r.1[j - 1]);
                }
            }
            // the front of the swept side never moves below where it started
            if r.0.len() > 0 {
                if lvl.queue.len() <= 1 {
                    if asks2.len() > 0 {
                        assert(asks2[0] == asks[1]);
                        assert(asks[0].price < asks[1].price);
                    }
                } else {
                    assert(asks2[0].price == asks[0].price);
                }
            }
        }
    }
}

/// What a sweep of the bid side guarantees: the mirror image of
/// `lemma_sweep_asks`, with fills sweeping downward in price.
pub proof fn lemma_sweep_bids(bids: Seq<LevelV>, limit: int, taker_seq: int, rem: int)
    requires
        crate::book::side_wf(bids, Side::Buy),
        rem >= 0,
    ensures
        ({
            let (a2, fs, r2) = sweep_bids(bids, limit, taker_seq, rem);
            &&& crate::book::side_wf(a2, Side::Buy)
            &&& 0 <= r2 <= rem
            &&& sum_fill_qty(fs) + r2 == rem
            &&& a2.len() > 0 ==> bids.len() > 0 && a2.last().price <= bids.last().price
            &&& r2 > 0 ==> a2.len() == 0 || limit > a2.last().price
            &&& forall|i: int|
                0 <= i < fs.len() ==> fill_from_sweep(bids, taker_seq, #[trigger] fs[i])
                    && fs[i].price >= limit
            &&& bids.len() > 0 ==> forall|i: int|
                0 <= i < fs.len() ==> (#[trigger] fs[i]).price <= bids.last().price && (fs[i].price
                    == bids.last().price ==> fs[i].maker_seq >= bids.last().queue[0].seq)
            &&& forall|i: int, j: int|
                #![trigger fs[i].price, fs[j].price]
                0 <= i < j < fs.len() ==> fs[i].price >= fs[j].price && (fs[i].price == fs[j].price
                    ==> fs[i].maker_seq < fs[j].maker_seq)
        }),
    decreases bids.len(), (if bids.len() > 0 {
        bids.last().queue.len()
    } else {
        0
    }),
{
    if rem <= 0 || bids.len() == 0 || limit > bids.last().price {
        assert(sum_fill_qty(Seq::<FillV>::empty()) == 0);
    } else {
        let k = bids.len() - 1;
        let lvl = bids.last();
        let front = lvl.queue[0];
        if rem < front.qty {
            let front2 = RestV { qty: front.qty - rem, ..front };
            lemma_side_wf_reduce_front(bids, Side::Buy, k, front.qty - rem);
            let fill = FillV { maker_seq: front.seq, taker_seq, price: lvl.price, qty: rem };
            let fs = seq![fill];
            assert(fs.drop_first() =~= Seq::<FillV>::empty());
            assert(sum_fill_qty(fs) == fill.qty + sum_fill_qty(Seq::<FillV>::empty()));
            assert(sum_fill_qty(Seq::<FillV>::empty()) == 0);
            assert(maker_in(bids, front.seq, lvl.price));
        } else {
            let bids2 = if lvl.queue.len() <= 1 {
                bids.drop_last()
            } else {
                bids.update(k, LevelV { price: lvl.price, queue: lvl.queue.drop_first() })
            };
            if lvl.queue.len() <= 1 {
                lemma_side_wf_drop_last(bids, Side::Buy);
            } else {
                lemma_side_wf_pop_front(bids, Side::Buy, k);
            }
            let fill = FillV { maker_seq: front.seq, taker_seq, price: lvl.price, qty: front.qty };
            let r = sweep_bids(bids2, limit, taker_seq, rem - front.qty);
            lemma_sweep_bids(bids2, limit, taker_seq, rem - front.qty);
            lemma_sum_cons(fill, r.1);
            let fs = seq![fill] + r.1;
            assert(maker_in(bids, front.seq, lvl.price));
            assert forall|i: int| 0 <= i < fs.len() implies fill_from_sweep(
                bids,
                taker_seq,
                #[trigger] fs[i],
            ) && fs[i].price >= limit by {
                if i > 0 {
                    assert(fs[i] == r.1[i - 1]);
                    assert(fill_from_sweep(bids2, taker_seq, r.1[i - 1]));
                    assert(bids.drop_last() =~= bids.remove(k));
                    lemma_maker_in_after_pop(bids, k, fs[i].maker_seq, fs[i].price);
                }
            }
            assert forall|i: int| 0 <= i < fs.len() implies (#[trigger] fs[i]).price
                <= bids.last().price && (fs[i].price == bids.last().price ==> fs[i].maker_seq
                >= bids.last().queue[0].seq) by {
                if i > 0 {
                    let g = r.1[i - 1];
                    assert(fs[i] == g);
                    if bids2.len() > 0 {
                        assert(g.price <= bids2.last().price);
                        if lvl.queue.len() <= 1 {
                            assert(bids2.last() == bids[k - 1]);
                            assert(bids[k - 1].price < bids[k].price);
                        } else {
                            assert(bids2.last().price == bids.last().price);
                            if g.price == bids.last().price {
                                assert(g.maker_seq >= bids2.last().queue[0].seq);
                                assert(bids2.last().queue[0] == lvl.queue[1]);
                                assert(lvl.queue[0].seq < lvl.queue[1].seq);
                            }
                        }
                    }
                }
            }
            assert forall|i: int, j: int|
                #![trigger fs[i].price, fs[j].price]
                0 <= i < j < fs.len() implies fs[i].price >= fs[j].price && (fs[i].price
                == fs[j].price ==> fs[i].maker_seq < fs[j].maker_seq) by {
                if i == 0 {
                    let g = r.1[j - 1];
                    assert(fs[j] == g);
                    if bids2.len() > 0 {
                        assert(g.price <= bids2.last().price);
                        if lvl.queue.len() <= 1 {
                            assert(bids2.last() == bids[k - 1]);
                            assert(bids[k - 1].price < bids[k].price);
                        } else {
                            assert(bids2.last().price == bids.last().price);
                            if g.price == bids.last().price {
                                assert(g.maker_seq >= bids2.last().queue[0].seq);
                                assert(bids2.last().queue[0] == lvl.queue[1]);
                                assert(lvl.queue[0].seq < lvl.queue[1].seq);
                            }
                        }
                    } else {
                        assert(r.1.len() == 0);
                    }
                } else {
                    assert(fs[i] == r.1[i - 1]);
                    assert(fs[j] == r.1[j - 1]);
                }
            }
            if r.0.len() > 0 {
                if lvl.queue.len() <= 1 {
                    if bids2.len() > 0 {
                        assert(bids2.last() == bids[k - 1]);
                        assert(bids[k - 1].price < bids[k].price);
                    }
                } else {
                    assert(bids2.last().price == bids.last().price);
                }
            }
        }
    }
}

/// Whether every order resting in the side arrived before sequence number
/// `s`.
pub open spec fn side_seq_lt(ls: Seq<LevelV>, s: int) -> bool {
    forall|l: int, k: int|
        0 <= l < ls.len() && 0 <= k < ls[l].queue.len() ==> (#[trigger] ls[l].queue[k]).seq < s
}

/// Whether every order resting in the book arrived before sequence number
/// `s`.
pub open spec fn book_seq_lt(b: BookV, s: int) -> bool {
    side_seq_lt(b.bids, s) && side_seq_lt(b.asks, s)
}

/// Whether the resting order `r` is present in the side.
pub open spec fn rest_present(ls: Seq<LevelV>, r: RestV) -> bool {
    exists|l: int, k: int|
        0 <= l < ls.len() && 0 <= k < ls[l].queue.len() && #[trigger] ls[l].queue[k] == r
}

/// Resting an order that arrived after everything on its side keeps the side
/// well formed, puts the order in the book, and moves the side's price
/// extremes only to include the new price.
#[verifier::rlimit(60)]
pub proof fn lemma_rest_into(ls: Seq<LevelV>, r: RestV, side: Side)
    requires
        crate::book::side_wf(ls, side),
        r.qty > 0,
        r.price >= 0,
        r.side == side,
        side_seq_lt(ls, r.seq),
    ensures
        ({
            let u = rest_into(ls, r);
            &&& crate::book::side_wf(u, side)
            &&& u.len() > 0
            &&& u.last().price == (if ls.len() > 0 && ls.last().price > r.price {
                ls.last().price
            } else {
                r.price
            })
            &&& u[0].price == (if ls.len() > 0 && ls[0].price < r.price {
                ls[0].price
            } else {
                r.price
            })
            &&& rest_present(u, r)
            &&& side_seq_lt(u, r.seq + 1)
        }),
    decreases ls.len(),
{
    let u = rest_into(ls, r);
    if ls.len() == 0 {
        let lvl = LevelV { price: r.price, queue: seq![r] };
        assert(u =~= seq![lvl]);
        assert(u[0] == lvl);
        assert(u[0].queue[0] == r);
        assert(crate::book::level_wf(lvl, side));
        assert forall|l: int, k: int|
            0 <= l < u.len() && 0 <= k < u[l].queue.len() implies (#[trigger] u[l].queue[k]).seq
            < r.seq + 1 by {
            assert(u[l].queue[k] == r);
        }
    } else if ls[0].price < r.price {
        lemma_side_wf_drop_first(ls, side);
        assert forall|l: int, k: int|
            0 <= l < ls.drop_first().len() && 0 <= k < ls.drop_first()[l].queue.len() implies (
        #[trigger] ls.drop_first()[l].queue[k]).seq < r.seq by {
            assert(ls.drop_first()[l] == ls[l + 1]);
        }
        lemma_rest_into(ls.drop_first(), r, side);
        let u2 = rest_into(ls.drop_first(), r);
        assert(u =~= seq![ls[0]] + u2);
        assert forall|i: int| 0 <= i < u.len() implies crate::book::level_wf(#[trigger] u[i], side)
            && u[i].price >= 0 by {
            if i > 0 {
                assert(u[i] == u2[i - 1]);
            } else {
                assert(u[0] == ls[0]);
            }
        }
        assert forall|i: int, j: int|
            #![trigger u[i].price, u[j].price]
            0 <= i < j < u.len() implies u[i].price < u[j].price by {
            if i > 0 {
                assert(u[i] == u2[i - 1]);
                assert(u[j] == u2[j - 1]);
            } else {
                assert(u[0] == ls[0]);
                assert(u[j] == u2[j - 1]);
                if ls.drop_first().len() > 0 && ls.drop_first()[0].price < r.price {
                    assert(ls.drop_first()[0] == ls[1]);
                    assert(u2[0].price == ls[1].price);
                    if j - 1 > 0 {
                        assert(u2[0].price < u2[j - 1].price);
                    }
                } else {
                    assert(u2[0].price == r.price);
                    if j - 1 > 0 {
                        assert(u2[0].price < u2[j - 1].price);
                    }
                }
            }
        }
        let (l2, k2): (int, int) = choose|l2: int, k2: int|
            0 <= l2 < u2.len() && 0 <= k2 < u2[l2].queue.len() && #[trigger] u2[l2].queue[k2] == r;
        assert(0 <= l2 + 1 < u.len());
        assert(u[l2 + 1] == u2[l2]);
        assert(u[l2 + 1].queue[k2] == r);
        assert(rest_present(u, r));
        assert(u.last() == u2.last());
        if ls.len() > 1 {
            assert(ls.drop_first().last() == ls.last());
        }
        assert forall|l: int, k: int|
            0 <= l < u.len() && 0 <= k < u[l].queue.len() implies (#[trigger] u[l].queue[k]).seq
            < r.seq + 1 by {
            if l > 0 {
                assert(u[l] == u2[l - 1]);
                assert(u2[l - 1].queue[k].seq < r.seq + 1);
            } else {
                assert(u[0] == ls[0]);
                assert(ls[0].queue[k].seq < r.seq);
            }
        }
    } else if ls[0].price == r.price {
        let lvl2 = LevelV { price: ls[0].price, queue: ls[0].queue.push(r) };
        assert(u =~= ls.update(0, lvl2));
        assert forall|i: int| 0 <= i < u.len() implies crate::book::level_wf(#[trigger] u[i], side)
            && u[i].price >= 0 by {
            if i == 0 {
                let q = ls[0].queue;
                let d = q.push(r);
                assert forall|m: int| 0 <= m < d.len() implies {
                    &&& (#[trigger] d[m]).price == lvl2.price
                    &&& d[m].qty > 0
                    &&& d[m].side == side
                } by {
                    if m < q.len() {
                        assert(d[m] == q[m]);
                    } else {
                        assert(d[m] == r);
                    }
                }
                assert forall|m: int, n: int|
                    #![trigger d[m].seq, d[n].seq]
                    0 <= m < n < d.len() implies d[m].seq < d[n].seq by {
                    if n < q.len() {
                        assert(d[m] == q[m] && d[n] == q[n]);
                    } else {
                        assert(d[m] == q[m] && d[n] == r);
                        assert(q[m].seq < r.seq);
                    }
                }
            }
        }
        assert(u[0].queue[ls[0].queue.len() as int] == r);
        if ls.len() > 1 {
            assert(u.last() == ls.last());
        }
        assert forall|l: int, k: int|
            0 <= l < u.len() && 0 <= k < u[l].queue.len() implies (#[trigger] u[l].queue[k]).seq
            < r.seq + 1 by {
            if l == 0 {
                if k < ls[0].queue.len() {
                    assert(u[0].queue[k] == ls[0].queue[k]);
                    assert(ls[0].queue[k].seq < r.seq);
                } else {
                    assert(u[0].queue[k] == r);
                }
            } else {
                assert(u[l] == ls[l]);
                assert(ls[l].queue[k].seq < r.seq);
            }
        }
    } else {
        let lvl = LevelV { price: r.price, queue: seq![r] };
        assert(u =~= seq![lvl] + ls);
        assert(u[0] == lvl);
        assert(u[0].queue[0] == r);
        assert(crate::book::level_wf(lvl, side));
        assert forall|i: int| 0 <= i < u.len() implies crate::book::level_wf(#[trigger] u[i], side)
            && u[i].price >= 0 by {
            if i > 0 {
                assert(u[i] == ls[i - 1]);
            }
        }
        assert forall|i: int, j: int|
            #![trigger u[i].price, u[j].price]
            0 <= i < j < u.len() implies u[i].price < u[j].price by {
            if i > 0 {
                assert(u[i] == ls[i - 1]);
                assert(u[j] == ls[j - 1]);
            } else {
                assert(u[j] == ls[j - 1]);
                assert(ls[0].price <= ls[j - 1].price);
            }
        }
        assert forall|l: int, k: int|
            0 <= l < u.len() && 0 <= k < u[l].queue.len() implies (#[trigger] u[l].queue[k]).seq
            < r.seq + 1 by {
            if l == 0 {
                assert(u[0].queue[k] == r);
            } else {
                assert(u[l] == ls[l - 1]);
                assert(ls[l - 1].queue[k].seq < r.seq);
            }
        }
        assert(u.last() == ls.last());
    }
}

/// A sweep of the asks never introduces a new resting order: sequence
/// numbers stay below any prior bound.
proof fn lemma_sweep_asks_seq_lt(asks: Seq<LevelV>, limit: int, taker_seq: int, rem: int, s: int)
    requires
        side_seq_lt(asks, s),
        forall|l: int| 0 <= l < asks.len() ==> (#[trigger] asks[l]).queue.len() > 0,
    ensures
        side_seq_lt(sweep_asks(asks, limit, taker_seq, rem).0, s),
    decreases asks.len(), (if asks.len() > 0 {
        asks[0].queue.len()
    } else {
        0
    }),
{
    if rem <= 0 || asks.len() == 0 || limit < asks[0].price {
    } else {
        let lvl = asks[0];
        let front = lvl.queue[0];
        if rem < front.qty {
            let front2 = RestV { qty: front.qty - rem, ..front };
            let lvl2 = LevelV { price: lvl.price, queue: lvl.queue.update(0, front2) };
            let u = asks.update(0, lvl2);
            assert forall|l: int, k: int|
                0 <= l < u.len() && 0 <= k < u[l].queue.len() implies (
            #[trigger] u[l].queue[k]).seq < s by {
                if l == 0 {
                    if k == 0 {
                        assert(asks[0].queue[0].seq < s);
                    } else {
                        assert(u[0].queue[k] == asks[0].queue[k]);
                    }
                } else {
                    assert(u[l] == asks[l]);
                }
            }
        } else {
            let asks2 = if lvl.queue.len() <= 1 {
                asks.drop_first()
            } else {
                asks.update(0, LevelV { price: lvl.price, queue: lvl.queue.drop_first() })
            };
            assert forall|l: int, k: int|
                0 <= l < asks2.len() && 0 <= k < asks2[l].queue.len() implies (
            #[trigger] asks2[l].queue[k]).seq < s by {
                if lvl.queue.len() <= 1 {
                    assert(asks2[l] == asks[l + 1]);
                } else {
                    if l == 0 {
                        assert(asks2[0].queue[k] == asks[0].queue[k + 1]);
                    } else {
                        assert(asks2[l] == asks[l]);
                    }
                }
            }
            assert forall|l: int| 0 <= l < asks2.len() implies (#[trigger] asks2[l]).queue.len()
                > 0 by {
                if lvl.queue.len() <= 1 {
                    assert(asks2[l] == asks[l + 1]);
                } else {
                    if l != 0 {
                        assert(asks2[l] == asks[l]);
                    }
                }
            }
            lemma_sweep_asks_seq_lt(asks2, limit, taker_seq, rem - front.qty, s);
        }
    }
}

/// A sweep of the bids never introduces a new resting order: sequence
/// numbers stay below any prior bound.
proof fn lemma_sweep_bids_seq_lt(bids: Seq<LevelV>, limit: int, taker_seq: int, rem: int, s: int)
    requires
        side_seq_lt(bids, s),
        forall|l: int| 0 <= l < bids.len() ==> (#[trigger] bids[l]).queue.len() > 0,
    ensures
        side_seq_lt(sweep_bids(bids, limit, taker_seq, rem).0, s),
    decreases bids.len(), (if bids.len() > 0 {
        bids.last().queue.len()
    } else {
        0
    }),
{
    if rem <= 0 || bids.len() == 0 || limit > bids.last().price {
    } else {
        let n = bids.len() - 1;
        let lvl = bids.last();
        let front = lvl.queue[0];
        if rem < front.qty {
            let front2 = RestV { qty: front.qty - rem, ..front };
            let lvl2 = LevelV { price: lvl.price, queue: lvl.queue.update(0, front2) };
            let u = bids.update(n, lvl2);
            assert forall|l: int, k: int|
                0 <= l < u.len() && 0 <= k < u[l].queue.len() implies (
            #[trigger] u[l].queue[k]).seq < s by {
                if l == n {
                    if k == 0 {
                        assert(bids[n].queue[0].seq < s);
                    } else {
                        assert(u[n].queue[k] == bids[n].queue[k]);
                    }
                } else {
                    assert(u[l] == bids[l]);
                }
            }
        } else {
            let bids2 = if lvl.queue.len() <= 1 {
                bids.drop_last()
            } else {
                bids.update(n, LevelV { price: lvl.price, queue: lvl.queue.drop_first() })
            };
            assert forall|l: int, k: int|
                0 <= l < bids2.len() && 0 <= k < bids2[l].queue.len() implies (
            #[trigger] bids2[l].queue[k]).seq < s by {
                if lvl.queue.len() <= 1 {
                    assert(bids2[l] == bids[l]);
                } else {
                    if l == n {
                        assert(bids2[n].queue[k] == bids[n].queue[k + 1]);
                    } else {
                        assert(bids2[l] == bids[l]);
                    }
                }
            }
            assert forall|l: int| 0 <= l < bids2.len() implies (#[trigger] bids2[l]).queue.len()
                > 0 by {
                if lvl.queue.len() <= 1 {
                    assert(bids2[l] == bids[l]);
                } else {
                    if l != n {
                        assert(bids2[l] == bids[l]);
                    }
                }
            }
            lemma_sweep_bids_seq_lt(bids2, limit, taker_seq, rem - front.qty, s);
        }
    }
}

/// The side of the book an incoming order matches against.
pub open spec fn opposite_levels(b: BookV, side: Side) -> Seq<LevelV> {
    if side == Side::Buy {
        b.asks
    } else {
        b.bids
    }
}

/// The side of the book an incoming order would rest on.
pub open spec fn same_levels(b: BookV, side: Side) -> Seq<LevelV> {
    if side == Side::Buy {
        b.bids
    } else {
        b.asks
    }
}

/// What one `add_spec` step guarantees on a well-formed book whose resting
/// orders all arrived before the incoming order: the book stays well formed
/// (in particular never crossed at rest), quantity is conserved between the
/// fills and what rests, every fill names a maker of the old book and carries
/// the maker's resting price, the maker matched before the taker, fill prices
/// never beat the taker's limit, fills sweep best price first, and fills at
/// one price consume makers in strictly ascending arrival order.
pub proof fn lemma_add_spec(b: BookV, o: crate::book::OrderV)
    requires
        crate::book::book_wf(b),
        book_seq_lt(b, o.seq),
    ensures
        ({
            let (b2, fs) = add_spec(b, o);
            let rem = rested_remaining(b, o);
            &&& crate::book::book_wf(b2)
            &&& book_seq_lt(b2, o.seq + 1)
            &&& 0 <= rem <= if o.qty > 0 && o.price >= 0 {
                o.qty
            } else {
                0
            }
            &&& sum_fill_qty(fs) + rem == if o.qty > 0 && o.price >= 0 {
                o.qty
            } else {
                0
            }
            &&& rem > 0 ==> rest_present(same_levels(b2, o.side), rest_of(o, rem))
            &&& rem == 0 ==> same_levels(b2, o.side) == same_levels(b, o.side)
            &&& forall|i: int|
                0 <= i < fs.len() ==> {
                    let f = #[trigger] fs[i];
                    &&& f.qty > 0
                    &&& f.taker_seq == o.seq
                    &&& f.maker_seq < o.seq
                    &&& maker_in(opposite_levels(b, o.side), f.maker_seq, f.price)
                    &&& (o.side == Side::Buy ==> f.price <= o.price)
                    &&& (o.side == Side::Sell ==> f.price >= o.price)
                }
            &&& forall|i: int, j: int|
                #![trigger fs[i].price, fs[j].price]
                0 <= i < j < fs.len() ==> {
                    &&& (o.side == Side::Buy ==> fs[i].price <= fs[j].price)
                    &&& (o.side == Side::Sell ==> fs[i].price >= fs[j].price)
                    &&& (fs[i].price == fs[j].price ==> fs[i].maker_seq < fs[j].maker_seq)
                }
        }),
{
    if o.qty <= 0 || o.price < 0 {
        assert(sum_fill_qty(Seq::<FillV>::empty()) == 0);
    } else if o.side == Side::Buy {
        let r = sweep_asks(b.asks, o.price, o.seq, o.qty);
        lemma_sweep_asks(b.asks, o.price, o.seq, o.qty);
        lemma_sweep_asks_seq_lt(b.asks, o.price, o.seq, o.qty, o.seq);
        let rem = r.2;
        // the maker of each fill arrived before the taker
        assert forall|i: int| 0 <= i < r.1.len() implies (#[trigger] r.1[i]).maker_seq
            < o.seq by {
            let f = r.1[i];
            let (l, k): (int, int) = choose|l: int, k: int|
                0 <= l < b.asks.len() && 0 <= k < b.asks[l].queue.len() && b.asks[l].queue[k].seq
                    == f.maker_seq && (#[trigger] b.asks[l].queue[k]).price == f.price;
            assert(b.asks[l].queue[k].seq < o.seq);
        }
        if rem > 0 {
            let rr = rest_of(o, rem);
            lemma_rest_into(b.bids, rr, Side::Buy);
            let bids2 = rest_into(b.bids, rr);
            if bids2.len() > 0 && r.0.len() > 0 {
                assert(o.price < r.0[0].price);
                if b.bids.len() > 0 {
                    assert(b.asks.len() > 0);
                    assert(b.bids.last().price < b.asks[0].price);
                    assert(r.0[0].price >= b.asks[0].price);
                }
            }
        } else {
            if b.bids.len() > 0 && r.0.len() > 0 {
                assert(b.asks.len() > 0);
                assert(b.bids.last().price < b.asks[0].price);
                assert(r.0[0].price >= b.asks[0].price);
            }
        }
    } else {
        let r = sweep_bids(b.bids, o.price, o.seq, o.qty);
        lemma_sweep_bids(b.bids, o.price, o.seq, o.qty);
        lemma_sweep_bids_seq_lt(b.bids, o.price, o.seq, o.qty, o.seq);
        let rem = r.2;
        assert forall|i: int| 0 <= i < r.1.len() implies (#[trigger] r.1[i]).maker_seq
            < o.seq by {
            let f = r.1[i];
            let (l, k): (int, int) = choose|l: int, k: int|
                0 <= l < b.bids.len() && 0 <= k < b.bids[l].queue.len() && b.bids[l].queue[k].seq
                    == f.maker_seq && (#[trigger] b.bids[l].queue[k]).price == f.price;
            assert(b.bids[l].queue[k].seq < o.seq);
        }
        if rem > 0 {
            let rr = rest_of(o, rem);
            lemma_rest_into(b.asks, rr, Side::Sell);
            let asks2 = rest_into(b.asks, rr);
            if r.0.len() > 0 && asks2.len() > 0 {
                assert(o.price > r.0.last().price);
                if b.asks.len() > 0 {
                    assert(b.bids.len() > 0);
                    assert(b.bids.last().price < b.asks[0].price);
                    assert(r.0.last().price <= b.bids.last().price);
                }
            }
        } else {
            if b.asks.len() > 0 && r.0.len() > 0 {
                assert(b.bids.len() > 0);
                assert(b.bids.last().price < b.asks[0].price);
                assert(r.0.last().price <= b.bids.last().price);
            }
        }
    }
}

/// The total number of orders resting in a side.
pub open spec fn orders_count(ls: Seq<LevelV>) -> nat
    decreases ls.len(),
{
    if ls.len() == 0 {
        0
    } else {
        ls[0].queue.len() + orders_count(ls.drop_first())
    }
}

/// Replacing the level at index `k` changes the order count by the change in
/// that level's queue length.
proof fn lemma_orders_count_update(ls: Seq<LevelV>, k: int, lvl2: LevelV)
    requires
        0 <= k < ls.len(),
    ensures
        orders_count(ls.update(k, lvl2)) + ls[k].queue.len() == orders_count(ls)
            + lvl2.queue.len(),
    decreases ls.len(),
{
    let u = ls.update(k, lvl2);
    if k == 0 {
        assert(u.drop_first() =~= ls.drop_first());
    } else {
        assert(u.drop_first() =~= ls.drop_first().update(k - 1, lvl2));
        lemma_orders_count_update(ls.drop_first(), k - 1, lvl2);
        assert(u[0] == ls[0]);
    }
}

/// Dropping the last level removes exactly its queue's orders from the count.
proof fn lemma_orders_count_drop_last(ls: Seq<LevelV>)
    requires
        ls.len() > 0,
    ensures
        orders_count(ls) == orders_count(ls.drop_last()) + ls.last().queue.len(),
    decreases ls.len(),
{
    if ls.len() == 1 {
        assert(ls.drop_last() =~= Seq::<LevelV>::empty());
        assert(ls.drop_first() =~= Seq::<LevelV>::empty());
    } else {
        lemma_orders_count_drop_last(ls.drop_first());
        assert(ls.drop_first().drop_last() =~= ls.drop_last().drop_first());
        assert(ls.drop_first().last() == ls.last());
        assert(ls.drop_last()[0] == ls[0]);
    }
}

/// Resting an order splits around any prefix of strictly cheaper levels.
proof fn lemma_rest_into_split(ls: Seq<LevelV>, r: RestV, i: int)
    requires
        0 <= i <= ls.len(),
        forall|j: int| 0 <= j < i ==> (#[trigger] ls[j]).price < r.price,
    ensures
        rest_into(ls, r) == ls.take(i) + rest_into(ls.skip(i), r),
    decreases i,
{
    if i == 0 {
        assert(ls.take(0) =~= Seq::<LevelV>::empty());
        assert(ls.skip(0) =~= ls);
        assert(ls.take(0) + rest_into(ls, r) =~= rest_into(ls, r));
    } else {
        assert(ls[0].price < r.price);
        let d = ls.drop_first();
        assert forall|j: int| 0 <= j < i - 1 implies (#[trigger] d[j]).price < r.price by {
            assert(d[j] == ls[j + 1]);
        }
        lemma_rest_into_split(d, r, i - 1);
        assert(d.take(i - 1) =~= ls.take(i).drop_first());
        assert(d.skip(i - 1) =~= ls.skip(i));
        assert(seq![ls[0]] + (d.take(i - 1) + rest_into(d.skip(i - 1), r)) =~= ls.take(i)
            + rest_into(ls.skip(i), r));
    }
}

/// The view of a sequence of levels.
pub open spec fn lv(v: Seq<Level>) -> Seq<LevelV> {
    v.map_values(|l: Level| l@)
}

/// Rests an order on one side of the book, which must be sorted by ascending
/// price: appends to its price level's queue, or inserts a fresh level at the
/// sorted position.
pub(crate) fn rest_order(ls: &mut Vec<Level>, r: RestingOrder)
    ensures
        lv(final(ls)@) == rest_into(lv(old(ls)@), r@),
{
    let n = ls.len();
    let mut i: usize = 0;
    while i < n && ls[i].price < r.price
        invariant
            0 <= i <= n,
            n == ls@.len(),
            *ls == *old(ls),
            forall|j: int| 0 <= j < i ==> (#[trigger] ls@[j]).price < r.price,
        decreases n - i,
    {
        i = i + 1;
    }
    proof {
        assert forall|j: int| 0 <= j < i implies (#[trigger] lv(ls@)[j]).price < r@.price by {
            assert(lv(ls@)[j] == ls@[j]@);
        }
        lemma_rest_into_split(lv(ls@), r@, i as int);
    }
    let ghost pre = lv(ls@);
    if i < ls.len() && ls[i].price == r.price {
        let mut lvl = ls.remove(i);
        let ghost qpre = lvl@.queue;
        lvl.queue.push(r);
        ls.insert(i, lvl);
        proof {
            assert(lvl@.queue =~= qpre.push(r@));
            assert(qpre == pre[i as int].queue);
            assert(pre.skip(i as int)[0] == pre[i as int]);
            assert(rest_into(pre.skip(i as int), r@) =~= pre.skip(i as int).update(
                0,
                LevelV { price: pre[i as int].price, queue: pre[i as int].queue.push(r@) },
            ));
            assert(lv(ls@) =~= pre.take(i as int) + rest_into(pre.skip(i as int), r@));
        }
    } else {
        let price = r.price;
        let mut q: Vec<RestingOrder> = Vec::new();
        q.push(r);
        let lvl = Level { price, queue: q };
        proof {
            assert(lvl@.queue =~= seq![r@]);
            if i < ls@.len() {
                assert(pre.skip(i as int)[0] == pre[i as int]);
                assert(pre[i as int].price != r@.price);
                assert(ls@[i as int]@.price == pre[i as int].price);
            } else {
                assert(pre.skip(i as int) =~= Seq::<LevelV>::empty());
            }
        }
        ls.insert(i, lvl);
        proof {
            assert(rest_into(pre.skip(i as int), r@) =~= seq![lvl@] + pre.skip(i as int));
            assert(lv(ls@) =~= pre.take(i as int) + rest_into(pre.skip(i as int), r@));
        }
    }
}

/// Sweeps the ask side in place for a buy order with the given limit, taker
/// sequence number and quantity, consuming the best level's queue front
/// first. Returns the fills in emission order and the unfilled remainder:
/// exactly what `sweep_asks` says.
fn do_sweep_asks(asks: &mut Vec<Level>, limit: i64, taker_seq: u64, qty: i64) -> (res: (
    Vec<Fill>,
    i64,
))
    requires
        crate::book::side_wf(lv(old(asks)@), Side::Sell),
        qty > 0,
    ensures
        ({
            let s = sweep_asks(lv(old(asks)@), limit as int, taker_seq as int, qty as int);
            &&& lv(final(asks)@) == s.0
            &&& res.0@.map_values(|f: Fill| f@) == s.1
            &&& res.1 as int == s.2
            &&& crate::book::side_wf(lv(final(asks)@), Side::Sell)
        }),
{
    let mut fills: Vec<Fill> = Vec::new();
    let mut remaining = qty;
    let ghost a0 = lv(asks@);
    let ghost gl = limit as int;
    let ghost gt = taker_seq as int;
    proof {
        assert(fills@.map_values(|f: Fill| f@) =~= Seq::<FillV>::empty());
    }
    loop
        invariant
            gl == limit as int,
            gt == taker_seq as int,
            qty > 0,
            crate::book::side_wf(lv(asks@), Side::Sell),
            0 <= remaining <= qty,
            ({
                let sc = sweep_asks(lv(asks@), gl, gt, remaining as int);
                let so = sweep_asks(a0, gl, gt, qty as int);
                &&& so.0 == sc.0
                &&& so.1 == fills@.map_values(|f: Fill| f@) + sc.1
                &&& so.2 == sc.2
            }),
        ensures
            remaining <= 0 || lv(asks@).len() == 0 || gl < lv(asks@)[0].price,
        decreases orders_count(lv(asks@)), remaining as int,
    {
        if remaining <= 0 {
            break;
        }
        if asks.len() == 0 {
            proof {
                assert(lv(asks@).len() == asks@.len());
            }
            break;
        }
        if limit < asks[0].price {
            proof {
                assert(lv(asks@)[0] == asks@[0]@);
            }
            break;
        }
        let ghost ap = lv(asks@);
        let ghost rp = remaining as int;
        let ghost fp = fills@.map_values(|f: Fill| f@);
        proof {
            assert(ap[0] == asks@[0]@);
            assert(crate::book::level_wf(ap[0], Side::Sell));
            assert(ap[0].queue[0].qty > 0);
        }
        let ghost front0 = ap[0].queue[0];
        let mut lvl = asks.remove(0);
        proof {
            assert(lvl@ == ap[0]);
            assert(lvl@.queue[0] == lvl.queue@[0]@);
        }
        let mut front = lvl.queue.remove(0);
        proof {
            assert(front@ == front0);
        }
        let traded = if remaining < front.remaining_qty {
            remaining
        } else {
            front.remaining_qty
        };
        remaining = remaining - traded;
        front.remaining_qty = front.remaining_qty - traded;
        fills.push(
            Fill { maker_seq: front.seq, taker_seq, price: lvl.price, qty: traded },
        );
        let ghost fillv = FillV { maker_seq: front0.seq, taker_seq: gt, price: ap[0].price, qty: traded as int };
        proof {
            assert(fills@.map_values(|f: Fill| f@) =~= fp.push(fillv));
            assert(fp.push(fillv) =~= fp + seq![fillv]);
        }
        if front.remaining_qty > 0 {
            lvl.queue.insert(0, front);
        }
        if lvl.queue.len() > 0 {
            asks.insert(0, lvl);
        }
        proof {
            let sc_pre = sweep_asks(ap, gl, gt, rp);
            if rp < front0.qty {
                // the maker was only partially consumed: the sweep ends here
                let front2 = RestV { qty: front0.qty - rp, ..front0 };
                let lvl2 = LevelV { price: ap[0].price, queue: ap[0].queue.update(0, front2) };
                assert(asks@[0]@.queue =~= ap[0].queue.update(0, front2));
                assert(lv(asks@) =~= ap.update(0, lvl2));
                assert(sc_pre == (ap.update(0, lvl2), seq![fillv], 0int));
                lemma_side_wf_reduce_front(ap, Side::Sell, 0, front0.qty - rp);
                assert(remaining as int == 0);
                assert(fp + (seq![fillv] + Seq::<FillV>::empty()) =~= fp + seq![fillv]);
                lemma_orders_count_update(ap, 0, lvl2);
            } else {
                // the maker was fully consumed and popped
                let asks2 = if ap[0].queue.len() <= 1 {
                    ap.drop_first()
                } else {
                    ap.update(0, LevelV { price: ap[0].price, queue: ap[0].queue.drop_first() })
                };
                if ap[0].queue.len() <= 1 {
                    assert(lv(asks@) =~= asks2);
                    lemma_side_wf_drop_first(ap, Side::Sell);
                } else {
                    assert(asks@[0]@.queue =~= ap[0].queue.drop_first());
                    assert(lv(asks@) =~= asks2);
                    lemma_side_wf_pop_front(ap, Side::Sell, 0);
                    lemma_orders_count_update(
                        ap,
                        0,
                        LevelV { price: ap[0].price, queue: ap[0].queue.drop_first() },
                    );
                }
                let rcur = sweep_asks(asks2, gl, gt, rp - front0.qty);
                assert(sc_pre == (rcur.0, seq![fillv] + rcur.1, rcur.2));
                assert(fp + (seq![fillv] + rcur.1) =~= (fp + seq![fillv]) + rcur.1);
                assert(remaining as int == rp - front0.qty);
            }
        }
    }
    proof {
        let sc = sweep_asks(lv(asks@), gl, gt, remaining as int);
        assert(sc == (lv(asks@), Seq::<FillV>::empty(), remaining as int));
        assert(fills@.map_values(|f: Fill| f@) + Seq::<FillV>::empty() =~= fills@.map_values(
            |f: Fill| f@,
        ));
    }
    (fills, remaining)
}

/// Sweeps the bid side in place for a sell order with the given limit, taker
/// sequence number and quantity: the mirror image of `do_sweep_asks`, working
/// from the last (best) bid level downward. Returns the fills in emission
/// order and the unfilled remainder: exactly what `sweep_bids` says.
fn do_sweep_bids(bids: &mut Vec<Level>, limit: i64, taker_seq: u64, qty: i64) -> (res: (
    Vec<Fill>,
    i64,
))
    requires
        crate::book::side_wf(lv(old(bids)@), Side::Buy),
        qty > 0,
    ensures
        ({
            let s = sweep_bids(lv(old(bids)@), limit as int, taker_seq as int, qty as int);
            &&& lv(final(bids)@) == s.0
            &&& res.0@.map_values(|f: Fill| f@) == s.1
            &&& res.1 as int == s.2
            &&& crate::book::side_wf(lv(final(bids)@), Side::Buy)
        }),
{
    let mut fills: Vec<Fill> = Vec::new();
    let mut remaining = qty;
    let ghost a0 = lv(bids@);
    let ghost gl = limit as int;
    let ghost gt = taker_seq as int;
    proof {
        assert(fills@.map_values(|f: Fill| f@) =~= Seq::<FillV>::empty());
    }
    loop
        invariant
            gl == limit as int,
            gt == taker_seq as int,
            qty > 0,
            crate::book::side_wf(lv(bids@), Side::Buy),
            0 <= remaining <= qty,
            ({
                let sc = sweep_bids(lv(bids@), gl, gt, remaining as int);
                let so = sweep_bids(a0, gl, gt, qty as int);
                &&& so.0 == sc.0
                &&& so.1 == fills@.map_values(|f: Fill| f@) + sc.1
                &&& so.2 == sc.2
            }),
        ensures
            remaining <= 0 || lv(bids@).len() == 0 || gl > lv(bids@).last().price,
        decreases orders_count(lv(bids@)), remaining as int,
    {
        if remaining <= 0 {
            break;
        }
        if bids.len() == 0 {
            proof {
                assert(lv(bids@).len() == bids@.len());
            }
            break;
        }
        let k = bids.len() - 1;
        if limit > bids[k].price {
            proof {
                assert(lv(bids@).last() == bids@[k as int]@);
            }
            break;
        }
        let ghost ap = lv(bids@);
        let ghost rp = remaining as int;
        let ghost fp = fills@.map_values(|f: Fill| f@);
        proof {
            assert(ap.last() == bids@[k as int]@);
            assert(crate::book::level_wf(ap.last(), Side::Buy));
            assert(ap.last().queue[0].qty > 0);
        }
        let ghost front0 = ap.last().queue[0];
        let mut lvl = bids.remove(k);
        proof {
            assert(lvl@ == ap.last());
            assert(lvl@.queue[0] == lvl.queue@[0]@);
        }
        let mut front = lvl.queue.remove(0);
        proof {
            assert(front@ == front0);
        }
        let traded = if remaining < front.remaining_qty {
            remaining
        } else {
            front.remaining_qty
        };
        remaining = remaining - traded;
        front.remaining_qty = front.remaining_qty - traded;
        fills.push(
            Fill { maker_seq: front.seq, taker_seq, price: lvl.price, qty: traded },
        );
        let ghost fillv = FillV {
            maker_seq: front0.seq,
            taker_seq: gt,
            price: ap.last().price,
            qty: traded as int,
        };
        proof {
            assert(fills@.map_values(|f: Fill| f@) =~= fp.push(fillv));
            assert(fp.push(fillv) =~= fp + seq![fillv]);
        }
        if front.remaining_qty > 0 {
            lvl.queue.insert(0, front);
        }
        if lvl.queue.len() > 0 {
            bids.push(lvl);
        }
        proof {
            let gk = ap.len() - 1;
            let sc_pre = sweep_bids(ap, gl, gt, rp);
            if rp < front0.qty {
                // the maker was only partially consumed: the sweep ends here
                let front2 = RestV { qty: front0.qty - rp, ..front0 };
                let lvl2 = LevelV { price: ap.last().price, queue: ap.last().queue.update(0, front2) };
                assert(bids@[gk]@.queue =~= ap.last().queue.update(0, front2));
                assert(lv(bids@) =~= ap.update(gk, lvl2));
                assert(sc_pre == (ap.update(gk, lvl2), seq![fillv], 0int));
                lemma_side_wf_reduce_front(ap, Side::Buy, gk, front0.qty - rp);
                assert(remaining as int == 0);
                assert(fp + (seq![fillv] + Seq::<FillV>::empty()) =~= fp + seq![fillv]);
                lemma_orders_count_update(ap, gk, lvl2);
            } else {
                // the maker was fully consumed and popped
                let bids2 = if ap.last().queue.len() <= 1 {
                    ap.drop_last()
                } else {
                    ap.update(
                        gk,
                        LevelV { price: ap.last().price, queue: ap.last().queue.drop_first() },
                    )
                };
                if ap.last().queue.len() <= 1 {
                    assert(lv(bids@) =~= bids2);
                    lemma_side_wf_drop_last(ap, Side::Buy);
                    lemma_orders_count_drop_last(ap);
                } else {
                    assert(bids@[gk]@.queue =~= ap.last().queue.drop_first());
                    assert(lv(bids@) =~= bids2);
                    lemma_side_wf_pop_front(ap, Side::Buy, gk);
                    lemma_orders_count_update(
                        ap,
                        gk,
                        LevelV { price: ap.last().price, queue: ap.last().queue.drop_first() },
                    );
                }
                let rcur = sweep_bids(bids2, gl, gt, rp - front0.qty);
                assert(sc_pre == (rcur.0, seq![fillv] + rcur.1, rcur.2));
                assert(fp + (seq![fillv] + rcur.1) =~= (fp + seq![fillv]) + rcur.1);
                assert(remaining as int == rp - front0.qty);
            }
        }
    }
    proof {
        let sc = sweep_bids(lv(bids@), gl, gt, remaining as int);
        assert(sc == (lv(bids@), Seq::<FillV>::empty(), remaining as int));
        assert(fills@.map_values(|f: Fill| f@) + Seq::<FillV>::empty() =~= fills@.map_values(
            |f: Fill| f@,
        ));
    }
    (fills, remaining)
}

impl OrderBook {
    /// Adds an order: if it crosses the book, match it with price/time
    /// priority (FIFO at each level); any remaining quantity rests at the
    /// order's limit price. An order with non-positive quantity or negative
    /// price is rejected silently: no fills, no change (validation is the
    /// caller's duty). The resulting book and the returned fills are exactly
    /// those of `add_spec`, so matching is a pure function of the prior book
    /// and the order.
    pub fn add(&mut self, order: Order) -> (fills: Vec<Fill>)
        requires
            old(self).wf(),
            book_seq_lt(old(self)@, order.seq as int),
        ensures
            final(self)@ == add_spec(old(self)@, order@).0,
            fills@.map_values(|f: Fill| f@) == add_spec(old(self)@, order@).1,
            final(self).wf(),
            book_seq_lt(final(self)@, order.seq + 1),
    {
        let ghost b0 = self@;
        proof {
            lemma_add_spec(b0, order@);
        }
        if order.qty <= 0 || order.price < 0 {
            let fills: Vec<Fill> = Vec::new();
            proof {
                assert(fills@.map_values(|f: Fill| f@) =~= Seq::<FillV>::empty());
            }
            return fills;
        }
        match order.side {
            Side::Buy => {
                let (fills, remaining) = do_sweep_asks(
                    &mut self.asks,
                    order.price,
                    order.seq,
                    order.qty,
                );
                if remaining > 0 {
                    let resting = RestingOrder {
                        seq: order.seq,
                        side: order.side,
                        price: order.price,
                        remaining_qty: remaining,
                        client_order_id: order.client_order_id,
                    };
                    proof {
                        assert(resting@ == rest_of(order@, remaining as int));
                    }
                    rest_order(&mut self.bids, resting);
                }
                proof {
                    assert(self@ == add_spec(b0, order@).0);
                }
                fills
            },
            Side::Sell => {
                let (fills, remaining) = do_sweep_bids(
                    &mut self.bids,
                    order.price,
                    order.seq,
                    order.qty,
                );
                if remaining > 0 {
                    let resting = RestingOrder {
                        seq: order.seq,
                        side: order.side,
                        price: order.price,
                        remaining_qty: remaining,
                        client_order_id: order.client_order_id,
                    };
                    proof {
                        assert(resting@ == rest_of(order@, remaining as int));
                    }
                    rest_order(&mut self.asks, resting);
                }
                proof {
                    assert(self@ == add_spec(b0, order@).0);
                }
                fills
            },
        }
    }
}

/// The quantity of the order that rested after the sweep: zero when it
/// filled completely, the resting order's remaining quantity otherwise.
pub open spec fn rested_remaining(b: BookV, o: crate::book::OrderV) -> int {
    if o.qty <= 0 || o.price < 0 {
        0
    } else if o.side == Side::Buy {
        sweep_asks(b.asks, o.price, o.seq, o.qty).2
    } else {
        sweep_bids(b.bids, o.price, o.seq, o.qty).2
    }
}

/// A sweep of the asks emits at most one fill per maker consumed, plus one
/// final partial fill.
proof fn lemma_sweep_asks_len(asks: Seq<LevelV>, limit: int, taker_seq: int, rem: int)
    requires
        crate::book::side_wf(asks, Side::Sell),
    ensures
        sweep_asks(asks, limit, taker_seq, rem).1.len() <= orders_count(asks) + 1,
    decreases asks.len(), (if asks.len() > 0 {
        asks[0].queue.len()
    } else {
        0
    }),
{
    if rem <= 0 || asks.len() == 0 || limit < asks[0].price {
    } else {
        let lvl = asks[0];
        let front = lvl.queue[0];
        assert(crate::book::level_wf(lvl, Side::Sell));
        if rem < front.qty {
        } else {
            let asks2 = if lvl.queue.len() <= 1 {
                asks.drop_first()
            } else {
                asks.update(0, LevelV { price: lvl.price, queue: lvl.queue.drop_first() })
            };
            if lvl.queue.len() <= 1 {
                lemma_side_wf_drop_first(asks, Side::Sell);
                assert(orders_count(asks) == lvl.queue.len() + orders_count(asks.drop_first()));
            } else {
                lemma_side_wf_pop_front(asks, Side::Sell, 0);
                lemma_orders_count_update(
                    asks,
                    0,
                    LevelV { price: lvl.price, queue: lvl.queue.drop_first() },
                );
            }
            lemma_sweep_asks_len(asks2, limit, taker_seq, rem - front.qty);
            let r = sweep_asks(asks2, limit, taker_seq, rem - front.qty);
            assert((seq![
                FillV { maker_seq: front.seq, taker_seq, price: lvl.price, qty: front.qty },
            ] + r.1).len() == 1 + r.1.len());
        }
    }
}

/// A sweep of the bids emits at most one fill per maker consumed, plus one
/// final partial fill.
proof fn lemma_sweep_bids_len(bids: Seq<LevelV>, limit: int, taker_seq: int, rem: int)
    requires
        crate::book::side_wf(bids, Side::Buy),
    ensures
        sweep_bids(bids, limit, taker_seq, rem).1.len() <= orders_count(bids) + 1,
    decreases bids.len(), (if bids.len() > 0 {
        bids.last().queue.len()
    } else {
        0
    }),
{
    if rem <= 0 || bids.len() == 0 || limit > bids.last().price {
    } else {
        let k = bids.len() - 1;
        let lvl = bids.last();
        let front = lvl.queue[0];
        assert(crate::book::level_wf(lvl, Side::Buy));
        if rem < front.qty {
        } else {
            let bids2 = if lvl.queue.len() <= 1 {
                bids.drop_last()
            } else {
                bids.update(k, LevelV { price: lvl.price, queue: lvl.queue.drop_first() })
            };
            if lvl.queue.len() <= 1 {
                lemma_side_wf_drop_last(bids, Side::Buy);
                lemma_orders_count_drop_last(bids);
            } else {
                lemma_side_wf_pop_front(bids, Side::Buy, k);
                lemma_orders_count_update(
                    bids,
                    k,
                    LevelV { price: lvl.price, queue: lvl.queue.drop_first() },
                );
            }
            lemma_sweep_bids_len(bids2, limit, taker_seq, rem - front.qty);
            let r = sweep_bids(bids2, limit, taker_seq, rem - front.qty);
            assert((seq![
                FillV { maker_seq: front.seq, taker_seq, price: lvl.price, qty: front.qty },
            ] + r.1).len() == 1 + r.1.len());
        }
    }
}

/// The total number of orders resting in a book.
pub open spec fn book_orders(b: BookV) -> nat {
    orders_count(b.bids) + orders_count(b.asks)
}

/// One add emits at most one fill per maker resting in the book, plus one.
pub proof fn lemma_add_fills_len(b: BookV, o: crate::book::OrderV)
    requires
        crate::book::book_wf(b),
    ensures
        add_spec(b, o).1.len() <= book_orders(b) + 1,
{
    if o.qty <= 0 || o.price < 0 {
    } else if o.side == Side::Buy {
        lemma_sweep_asks_len(b.asks, o.price, o.seq, o.qty);
    } else {
        lemma_sweep_bids_len(b.bids, o.price, o.seq, o.qty);
    }
}

/// Resting an order puts it in the side, whatever the side holds.
proof fn lemma_rest_into_present(ls: Seq<LevelV>, r: RestV)
    ensures
        rest_present(rest_into(ls, r), r),
    decreases ls.len(),
{
    let u = rest_into(ls, r);
    if ls.len() == 0 {
        assert(u[0].queue[0] == r);
    } else if ls[0].price < r.price {
        lemma_rest_into_present(ls.drop_first(), r);
        let u2 = rest_into(ls.drop_first(), r);
        let (l, k): (int, int) = choose|l: int, k: int|
            0 <= l < u2.len() && 0 <= k < u2[l].queue.len() && #[trigger] u2[l].queue[k] == r;
        assert(u == seq![ls[0]] + u2);
        assert(u[l + 1] == u2[l]);
        assert(u[l + 1].queue[k] == r);
    } else if ls[0].price == r.price {
        assert(u[0].queue[ls[0].queue.len() as int] == r);
    } else {
        assert(u[0].queue[0] == r);
    }
}

/// Whether a side's level prices are strictly ascending.
pub open spec fn prices_ascending(ls: Seq<LevelV>) -> bool {
    forall|i: int, j: int|
        #![trigger ls[i].price, ls[j].price]
        0 <= i < j < ls.len() ==> ls[i].price < ls[j].price
}

/// Resting an order keeps a side's prices strictly ascending and moves the
/// price extremes only to take in the new price.
proof fn lemma_rest_into_prices(ls: Seq<LevelV>, r: RestV)
    requires
        prices_ascending(ls),
    ensures
        ({
            let u = rest_into(ls, r);
            &&& prices_ascending(u)
            &&& u.len() > 0
            &&& u.last().price == (if ls.len() > 0 && ls.last().price > r.price {
                ls.last().price
            } else {
                r.price
            })
            &&& u[0].price == (if ls.len() > 0 && ls[0].price < r.price {
                ls[0].price
            } else {
                r.price
            })
        }),
    decreases ls.len(),
{
    let u = rest_into(ls, r);
    if ls.len() == 0 {
        let lvl = LevelV { price: r.price, queue: seq![r] };
        assert(u =~= seq![lvl]);
        assert(u[0] == lvl);
    } else if ls[0].price < r.price {
        let d = ls.drop_first();
        assert forall|i: int, j: int|
            #![trigger d[i].price, d[j].price]
            0 <= i < j < d.len() implies d[i].price < d[j].price by {
            assert(d[i] == ls[i + 1]);
            assert(d[j] == ls[j + 1]);
        }
        lemma_rest_into_prices(d, r);
        let u2 = rest_into(d, r);
        assert(u =~= seq![ls[0]] + u2);
        assert forall|i: int, j: int|
            #![trigger u[i].price, u[j].price]
            0 <= i < j < u.len() implies u[i].price < u[j].price by {
            if i > 0 {
                assert(u[i] == u2[i - 1]);
                assert(u[j] == u2[j - 1]);
            } else {
                assert(u[0] == ls[0]);
                assert(u[j] == u2[j - 1]);
                if d.len() > 0 && d[0].price < r.price {
                    assert(d[0] == ls[1]);
                    assert(u2[0].price == ls[1].price);
                    if j - 1 > 0 {
                        assert(u2[0].price < u2[j - 1].price);
                    }
                } else {
                    assert(u2[0].price == r.price);
                    if j - 1 > 0 {
                        assert(u2[0].price < u2[j - 1].price);
                    }
                }
            }
        }
        assert(u.last() == u2.last());
        if ls.len() > 1 {
            assert(d.last() == ls.last());
        }
    } else if ls[0].price == r.price {
        let lvl2 = LevelV { price: ls[0].price, queue: ls[0].queue.push(r) };
        assert(u =~= ls.update(0, lvl2));
        assert forall|i: int, j: int|
            #![trigger u[i].price, u[j].price]
            0 <= i < j < u.len() implies u[i].price < u[j].price by {
            assert(u[i].price == ls[i].price);
            assert(u[j].price == ls[j].price);
        }
        if ls.len() > 1 {
            assert(u.last() == ls.last());
        }
    } else {
        let lvl = LevelV { price: r.price, queue: seq![r] };
        assert(u =~= seq![lvl] + ls);
        assert(u[0] == lvl);
        assert forall|i: int, j: int|
            #![trigger u[i].price, u[j].price]
            0 <= i < j < u.len() implies u[i].price < u[j].price by {
            if i > 0 {
                assert(u[i] == ls[i - 1]);
                assert(u[j] == ls[j - 1]);
            } else {
                assert(u[j] == ls[j - 1]);
                assert(ls[0].price <= ls[j - 1].price);
            }
        }
        assert(u.last() == ls.last());
    }
}

/// Non-crossing rest: adding any order to a well-formed book never leaves it
/// crossed — whenever both sides are non-empty afterwards, the best bid price
/// is strictly below the best ask price. When the order also arrived after
/// everything resting (as the engine's monotonic counter guarantees), the
/// whole book invariant is preserved.
pub proof fn lemma_add_preserves_wf(b: BookV, o: crate::book::OrderV)
    requires
        crate::book::book_wf(b),
    ensures
        ({
            let b2 = add_spec(b, o).0;
            b2.bids.len() > 0 && b2.asks.len() > 0 ==> crate::book::best_bid_price(b2.bids)
                < crate::book::best_ask_price(b2.asks)
        }),
        book_seq_lt(b, o.seq) ==> crate::book::book_wf(add_spec(b, o).0) && book_seq_lt(
            add_spec(b, o).0,
            o.seq + 1,
        ),
{
    if book_seq_lt(b, o.seq) {
        lemma_add_spec(b, o);
    }
    if o.qty <= 0 || o.price < 0 {
    } else if o.side == Side::Buy {
        let r = sweep_asks(b.asks, o.price, o.seq, o.qty);
        lemma_sweep_asks(b.asks, o.price, o.seq, o.qty);
        if r.2 > 0 {
            let rr = rest_of(o, r.2);
            assert(prices_ascending(b.bids));
            lemma_rest_into_prices(b.bids, rr);
            let bids2 = rest_into(b.bids, rr);
            if bids2.len() > 0 && r.0.len() > 0 {
                assert(o.price < r.0[0].price);
                if b.bids.len() > 0 {
                    assert(b.asks.len() > 0);
                    assert(b.bids.last().price < b.asks[0].price);
                    assert(r.0[0].price >= b.asks[0].price);
                }
            }
        } else {
            if b.bids.len() > 0 && r.0.len() > 0 {
                assert(b.asks.len() > 0);
                assert(b.bids.last().price < b.asks[0].price);
                assert(r.0[0].price >= b.asks[0].price);
            }
        }
    } else {
        let r = sweep_bids(b.bids, o.price, o.seq, o.qty);
        lemma_sweep_bids(b.bids, o.price, o.seq, o.qty);
        if r.2 > 0 {
            let rr = rest_of(o, r.2);
            assert(prices_ascending(b.asks));
            lemma_rest_into_prices(b.asks, rr);
            let asks2 = rest_into(b.asks, rr);
            if r.0.len() > 0 && asks2.len() > 0 {
                assert(o.price > r.0.last().price);
                if b.asks.len() > 0 {
                    assert(b.bids.len() > 0);
                    assert(b.bids.last().price < b.asks[0].price);
                    assert(r.0.last().price <= b.bids.last().price);
                }
            }
        } else {
            if b.asks.len() > 0 && r.0.len() > 0 {
                assert(b.bids.len() > 0);
                assert(b.bids.last().price < b.asks[0].price);
                assert(r.0.last().price <= b.bids.last().price);
            }
        }
    }
}

/// Conservation of quantity: for any valid order, the fill quantities and the
/// quantity that rested sum to the order's quantity; when something rested,
/// the order sits in the book with exactly that remaining quantity, and when
/// nothing rested, the order's own side of the book is untouched.
pub proof fn lemma_add_conserves_qty(b: BookV, o: crate::book::OrderV)
    requires
        crate::book::book_wf(b),
        o.qty > 0,
        o.price >= 0,
    ensures
        ({
            let fs = add_spec(b, o).1;
            let rem = rested_remaining(b, o);
            &&& sum_fill_qty(fs) + rem == o.qty
            &&& 0 <= rem <= o.qty
            &&& rem > 0 ==> rest_present(same_levels(add_spec(b, o).0, o.side), rest_of(o, rem))
            &&& rem == 0 ==> same_levels(add_spec(b, o).0, o.side) == same_levels(b, o.side)
        }),
{
    if o.side == Side::Buy {
        let r = sweep_asks(b.asks, o.price, o.seq, o.qty);
        lemma_sweep_asks(b.asks, o.price, o.seq, o.qty);
        if r.2 > 0 {
            lemma_rest_into_present(b.bids, rest_of(o, r.2));
        }
    } else {
        let r = sweep_bids(b.bids, o.price, o.seq, o.qty);
        lemma_sweep_bids(b.bids, o.price, o.seq, o.qty);
        if r.2 > 0 {
            lemma_rest_into_present(b.asks, rest_of(o, r.2));
        }
    }
}

/// Maker price dominates: every fill carries the resting price of the maker
/// it names, never the taker's limit — a buy never pays above its limit and a
/// sell never receives below its limit. When the order also arrived after
/// everything resting, every maker matched before the taker.
pub proof fn lemma_add_maker_price(b: BookV, o: crate::book::OrderV)
    requires
        crate::book::book_wf(b),
    ensures
        forall|i: int|
            0 <= i < add_spec(b, o).1.len() ==> {
                let f = #[trigger] add_spec(b, o).1[i];
                &&& maker_in(opposite_levels(b, o.side), f.maker_seq, f.price)
                &&& f.taker_seq == o.seq
                &&& f.qty > 0
                &&& (o.side == Side::Buy ==> f.price <= o.price)
                &&& (o.side == Side::Sell ==> f.price >= o.price)
            },
        book_seq_lt(b, o.seq) ==> forall|i: int|
            0 <= i < add_spec(b, o).1.len() ==> (#[trigger] add_spec(b, o).1[i]).maker_seq < o.seq,
{
    if o.qty <= 0 || o.price < 0 {
    } else if o.side == Side::Buy {
        lemma_sweep_asks(b.asks, o.price, o.seq, o.qty);
        if book_seq_lt(b, o.seq) {
            let fs = add_spec(b, o).1;
            assert forall|i: int| 0 <= i < fs.len() implies (#[trigger] fs[i]).maker_seq
                < o.seq by {
                let f = fs[i];
                let (l, k): (int, int) = choose|l: int, k: int|
                    0 <= l < b.asks.len() && 0 <= k < b.asks[l].queue.len()
                        && b.asks[l].queue[k].seq == f.maker_seq && (#[trigger] b.asks[l].queue[
                    k]).price == f.price;
                assert(b.asks[l].queue[k].seq < o.seq);
            }
        }
    } else {
        lemma_sweep_bids(b.bids, o.price, o.seq, o.qty);
        if book_seq_lt(b, o.seq) {
            let fs = add_spec(b, o).1;
            assert forall|i: int| 0 <= i < fs.len() implies (#[trigger] fs[i]).maker_seq
                < o.seq by {
                let f = fs[i];
                let (l, k): (int, int) = choose|l: int, k: int|
                    0 <= l < b.bids.len() && 0 <= k < b.bids[l].queue.len()
                        && b.bids[l].queue[k].seq == f.maker_seq && (#[trigger] b.bids[l].queue[
                    k]).price == f.price;
                assert(b.bids[l].queue[k].seq < o.seq);
            }
        }
    }
}

/// FIFO within a level: among the fills of one add, fills sweep best price
/// first, and two fills at the same price consume makers in strictly
/// ascending arrival (sequence) order.
pub proof fn lemma_add_fifo_within_level(b: BookV, o: crate::book::OrderV)
    requires
        crate::book::book_wf(b),
    ensures
        ({
            let fs = add_spec(b, o).1;
            forall|i: int, j: int|
                #![trigger fs[i].price, fs[j].price]
                0 <= i < j < fs.len() ==> {
                    &&& (o.side == Side::Buy ==> fs[i].price <= fs[j].price)
                    &&& (o.side == Side::Sell ==> fs[i].price >= fs[j].price)
                    &&& (fs[i].price == fs[j].price ==> fs[i].maker_seq < fs[j].maker_seq)
                }
        }),
{
    if o.qty <= 0 || o.price < 0 {
    } else if o.side == Side::Buy {
        lemma_sweep_asks(b.asks, o.price, o.seq, o.qty);
    } else {
        lemma_sweep_bids(b.bids, o.price, o.seq, o.qty);
    }
}

} // verus!
