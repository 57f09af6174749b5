//! The order book for a single trading pair: bid and ask ladders, a location
//! index for cancellation, and the monotonic counters for sequencing, trade
//! ids and book versioning.
//!
//! Every mutating operation is proved equal to its model in `model`:
//! `process_order` computes exactly `spec_match` plus the residual policy,
//! and `cancel_order` computes exactly `cancel_view`.

use vstd::prelude::*;

use crate::level::{
    contains_entry, find_entry, sum_remaining, Level, OrderEntry,
};
use crate::model::{
    avail_qty, cancel_view, crosses, entry_count, lemma_avail_bounds, lemma_entry_count_pop,
    lemma_match_accounting, lemma_other_qty_bounds, lemma_trades_bounds, lemma_trades_prefix,
    lemma_trades_qty_nonneg, lemma_trades_qty_split, lemma_trades_value_zero, levels_wf,
    other_qty, pop_head_view, price_better, reduce_head_view, rest_insert_view, spec_match,
    trades_qty, trades_value, LevelView, MatchResult, TradeRec,
};
use crate::types::{Order, OrderStatus, OrderType, Side, Symbol, TimeInForce, Trade};

verus! {

/// One line of the location index: where the order with this id rests.
#[derive(Debug, Clone, Copy, PartialEq, Eq, Structural)]
pub struct IndexEntry {
    pub order_id: u128,
    pub side: Side,
    pub price: u64,
}

/// The map an index sequence denotes; later lines win, though under
/// `unique_index_ids` there is at most one line per id.
pub open spec fn index_map(s: Seq<IndexEntry>) -> Map<u128, (Side, u64)>
    decreases s.len(),
{
    if s.len() == 0 {
        Map::empty()
    } else {
        index_map(s.drop_last()).insert(s.last().order_id, (s.last().side, s.last().price))
    }
}

/// No two index lines name the same order id.
pub open spec fn unique_index_ids(s: Seq<IndexEntry>) -> bool {
    forall|i: int, j: int|
        0 <= i < j < s.len() ==> (#[trigger] s[i]).order_id != (#[trigger] s[j]).order_id
}

/// The denoted map contains exactly the ids the sequence holds, each with
/// its line's side and price.
pub proof fn lemma_index_map_chars(s: Seq<IndexEntry>)
    requires
        unique_index_ids(s),
    ensures
        forall|id: u128|
            #[trigger] index_map(s).contains_key(id) <==> exists|k: int|
                0 <= k < s.len() && (#[trigger] s[k]).order_id == id,
        forall|k: int|
            0 <= k < s.len() ==> index_map(s).contains_key((#[trigger] s[k]).order_id)
                && index_map(s)[s[k].order_id] == (s[k].side, s[k].price),
    decreases s.len(),
{
    if s.len() == 0 {
    } else {
        let t = s.drop_last();
        let last = s.last();
        assert(forall|i: int, j: int|
            0 <= i < j < t.len() ==> (#[trigger] t[i]).order_id != (#[trigger] t[j]).order_id);
        lemma_index_map_chars(t);
        assert(forall|k: int| 0 <= k < t.len() ==> t[k] == s[k]);
        assert(forall|k: int| 0 <= k < s.len() - 1 ==> (#[trigger] s[k]).order_id != last.order_id);
        assert forall|id: u128| #[trigger] index_map(s).contains_key(id) implies exists|k: int|
            0 <= k < s.len() && (#[trigger] s[k]).order_id == id by {
            if id == last.order_id {
                assert(s[s.len() - 1].order_id == id);
            } else {
                assert(index_map(t).contains_key(id));
                let k = choose|k: int| 0 <= k < t.len() && (#[trigger] t[k]).order_id == id;
                assert(s[k].order_id == id);
            }
        }
        assert forall|k: int| 0 <= k < s.len() implies index_map(s).contains_key(
            (#[trigger] s[k]).order_id,
        ) && index_map(s)[s[k].order_id] == (s[k].side, s[k].price) by {
            if k == s.len() - 1 {
            } else {
                assert(t[k] == s[k]);
                assert(index_map(t).contains_key(s[k].order_id));
                assert(s[k].order_id != last.order_id);
            }
        }
    }
}

/// Appending a fresh line inserts its binding.
pub proof fn lemma_index_map_push(s: Seq<IndexEntry>, e: IndexEntry)
    ensures
        index_map(s.push(e)) == index_map(s).insert(e.order_id, (e.side, e.price)),
{
    assert(s.push(e).drop_last() =~= s);
    assert(s.push(e).last() == e);
}

/// Removing the line at `i` removes its id's binding.
pub proof fn lemma_index_map_remove(s: Seq<IndexEntry>, i: int)
    requires
        unique_index_ids(s),
        0 <= i < s.len(),
    ensures
        index_map(s.remove(i)) == index_map(s).remove(s[i].order_id),
    decreases s.len(),
{
    lemma_index_map_chars(s);
    let t = s.remove(i);
    assert(forall|a: int, b: int|
        0 <= a < b < t.len() ==> (#[trigger] t[a]).order_id != (#[trigger] t[b]).order_id) by {
        assert(forall|a: int| 0 <= a < t.len() ==> t[a] == (if a < i { s[a] } else { s[a + 1] }));
    }
    lemma_index_map_chars(t);
    assert forall|id: u128| #[trigger] index_map(t).contains_key(id)
        <==> index_map(s).remove(s[i].order_id).contains_key(id) by {
        if index_map(t).contains_key(id) {
            let k = choose|k: int| 0 <= k < t.len() && (#[trigger] t[k]).order_id == id;
            if k < i {
                assert(s[k].order_id == id);
            } else {
                assert(s[k + 1].order_id == id);
            }
        }
        if index_map(s).remove(s[i].order_id).contains_key(id) {
            let k = choose|k: int| 0 <= k < s.len() && (#[trigger] s[k]).order_id == id;
            assert(k != i);
            if k < i {
                assert(t[k].order_id == id);
            } else {
                assert(t[k - 1].order_id == id);
            }
        }
    }
    assert forall|id: u128| index_map(t).contains_key(id)
        implies #[trigger] index_map(t)[id] == index_map(s).remove(s[i].order_id)[id] by {
        let k = choose|k: int| 0 <= k < t.len() && (#[trigger] t[k]).order_id == id;
        if k < i {
            assert(s[k].order_id == id);
        } else {
            assert(s[k + 1].order_id == id);
        }
    }
    assert(index_map(t) =~= index_map(s).remove(s[i].order_id));
}

/// The view of a ladder of levels.
pub open spec fn ladder_view(s: Seq<Level>) -> Seq<LevelView> {
    s.map_values(|l: Level| LevelView { price: l.price, entries: l@ })
}

/// Pointwise description of a ladder's view.
pub proof fn lemma_ladder_view_facts(s: Seq<Level>)
    ensures
        ladder_view(s).len() == s.len(),
        forall|i: int|
            0 <= i < s.len() ==> (#[trigger] ladder_view(s)[i]).price == s[i].price
                && ladder_view(s)[i].entries == s[i]@,
{
    assert forall|i: int|
        0 <= i < s.len() implies (#[trigger] ladder_view(s)[i]).price == s[i].price
            && ladder_view(s)[i].entries == s[i]@ by {
        assert(ladder_view(s)[i] == LevelView { price: s[i].price, entries: s[i]@ });
    }
}

/// No two entries of one ladder share an order id.
pub open spec fn ladder_distinct(l: Seq<LevelView>) -> bool {
    forall|i: int, k: int, j: int, m: int|
        0 <= i < l.len() && 0 <= k < l[i].entries.len() && 0 <= j < l.len() && 0 <= m
            < l[j].entries.len() && (i != j || k != m) ==> (#[trigger] l[i].entries[k]).order_id
            != (#[trigger] l[j].entries[m]).order_id
}

/// Whether the ladder holds a resting entry with this id at this price.
pub open spec fn ladder_has(l: Seq<LevelView>, id: u128, price: u64) -> bool {
    exists|i: int|
        0 <= i < l.len() && (#[trigger] l[i]).price == price && contains_entry(l[i].entries, id)
}

/// The order book for one symbol.
#[derive(Debug)]
pub struct OrderBook {
    pub symbol: Symbol,
    /// Bid levels, best (highest) price first.
    pub bids: Vec<Level>,
    /// Ask levels, best (lowest) price first.
    pub asks: Vec<Level>,
    /// Location index: order id to (side, price), for cancellation.
    pub index: Vec<IndexEntry>,
    /// Next per-order sequence number for time priority. An engine keeps
    /// this chained to its engine-wide counter, so sequences stay unique
    /// across all of its books.
    pub next_sequence: u64,
    /// Next trade id.
    pub next_trade_id: u64,
    /// Book version, bumped on every visible change.
    pub book_seq: u64,
}

impl OrderBook {
    /// The model of one side's ladder, best price first.
    pub open spec fn side_levels(&self, side: Side) -> Seq<LevelView> {
        match side {
            Side::Buy => ladder_view(self.bids@),
            Side::Sell => ladder_view(self.asks@),
        }
    }

    /// The model of the location index.
    pub open spec fn imap(&self) -> Map<u128, (Side, u64)> {
        index_map(self.index@)
    }

    /// The book's invariant.
    ///
    /// Ladders are sorted best-first with unique prices and non-empty
    /// levels; every level's cached total equals the sum over its queue (the
    /// quantity-conservation invariant); resting sequence numbers are below
    /// the sequence counter; and the location index and the ladders list
    /// exactly the same orders, at the side and price where each rests.
    pub open spec fn wf(&self) -> bool {
        &&& levels_wf(self.side_levels(Side::Buy), Side::Buy, self.next_sequence)
        &&& levels_wf(self.side_levels(Side::Sell), Side::Sell, self.next_sequence)
        &&& forall|i: int| 0 <= i < self.bids@.len() ==> (#[trigger] self.bids@[i]).wf()
        &&& forall|i: int| 0 <= i < self.asks@.len() ==> (#[trigger] self.asks@[i]).wf()
        &&& ladder_distinct(self.side_levels(Side::Buy))
        &&& ladder_distinct(self.side_levels(Side::Sell))
        &&& unique_index_ids(self.index@)
        &&& forall|k: int|
            0 <= k < self.index@.len() ==> ladder_has(
                self.side_levels((#[trigger] self.index@[k]).side),
                self.index@[k].order_id,
                self.index@[k].price,
            )
        &&& self.entries_indexed(Side::Buy)
        &&& self.entries_indexed(Side::Sell)
    }

    /// Every entry resting on `side` is in the index, under its side and
    /// price.
    pub open spec fn entries_indexed(&self, side: Side) -> bool {
        forall|i: int, k: int|
            0 <= i < self.side_levels(side).len() && 0 <= k
                < self.side_levels(side)[i].entries.len() ==> {
                let e = #[trigger] self.side_levels(side)[i].entries[k];
                &&& self.imap().contains_key(e.order_id)
                &&& self.imap()[e.order_id] == (side, e.price)
            }
    }

    /// A new, empty book.
    pub fn new(symbol: Symbol) -> (b: OrderBook)
        ensures
            b.wf(),
            b.symbol@ == symbol@,
            b.side_levels(Side::Buy) == Seq::<LevelView>::empty(),
            b.side_levels(Side::Sell) == Seq::<LevelView>::empty(),
            b.imap() == Map::<u128, (Side, u64)>::empty(),
            b.next_sequence == 0,
            b.next_trade_id == 0,
            b.book_seq == 0,
    {
        let b = OrderBook {
            symbol,
            bids: Vec::new(),
            asks: Vec::new(),
            index: Vec::new(),
            next_sequence: 0,
            next_trade_id: 0,
            book_seq: 0,
        };
        proof {
            assert(b.side_levels(Side::Buy) =~= Seq::<LevelView>::empty());
            assert(b.side_levels(Side::Sell) =~= Seq::<LevelView>::empty());
        }
        b
    }

    /// The current book version.
    pub fn book_sequence(&self) -> (r: u64)
        ensures
            r == self.book_seq,
    {
        self.book_seq
    }

    /// Best bid and best ask prices, if those sides are non-empty.
    pub fn get_bbo(&self) -> (r: (Option<u64>, Option<u64>))
        ensures
            r.0 == (if self.side_levels(Side::Buy).len() > 0 {
                Some(self.side_levels(Side::Buy)[0].price)
            } else {
                Option::<u64>::None
            }),
            r.1 == (if self.side_levels(Side::Sell).len() > 0 {
                Some(self.side_levels(Side::Sell)[0].price)
            } else {
                Option::<u64>::None
            }),
    {
        let best_bid = if self.bids.len() > 0 {
            Some(self.bids[0].price)
        } else {
            None
        };
        let best_ask = if self.asks.len() > 0 {
            Some(self.asks[0].price)
        } else {
            None
        };
        (best_bid, best_ask)
    }

    /// Snapshot of up to the best `levels` levels on each side: bids best
    /// (highest) first, asks best (lowest) first, each line carrying the
    /// level's price, total resting quantity and order count.
    pub fn get_depth(&self, levels: usize) -> (r: (Vec<crate::types::PriceLevel>, Vec<
        crate::types::PriceLevel,
    >))
        requires
            self.wf(),
        ensures
            r.0@.len() == vstd::math::min(levels as int, self.side_levels(Side::Buy).len() as int),
            r.1@.len() == vstd::math::min(levels as int, self.side_levels(Side::Sell).len() as int),
            forall|i: int|
                0 <= i < r.0@.len() ==> {
                    let lv = self.side_levels(Side::Buy)[i];
                    &&& (#[trigger] r.0@[i]).price == lv.price
                    &&& r.0@[i].quantity == sum_remaining(lv.entries)
                    &&& r.0@[i].order_count == lv.entries.len()
                },
            forall|i: int|
                0 <= i < r.1@.len() ==> {
                    let lv = self.side_levels(Side::Sell)[i];
                    &&& (#[trigger] r.1@[i]).price == lv.price
                    &&& r.1@[i].quantity == sum_remaining(lv.entries)
                    &&& r.1@[i].order_count == lv.entries.len()
                },
    {
        let bids = depth_of(&self.bids, levels);
        let asks = depth_of(&self.asks, levels);
        (bids, asks)
    }

    /// Removes the order with this id if it rests in the book. Returns true
    /// and bumps the book version exactly when it was present; a cancel for
    /// an unknown id returns false and changes nothing.
    pub fn cancel_order(&mut self, order_id: u128) -> (r: bool)
        requires
            old(self).wf(),
            old(self).book_seq < u64::MAX,
        ensures
            final(self).wf(),
            r == old(self).imap().contains_key(order_id),
            !r ==> *final(self) == *old(self),
            r ==> ({
                let loc = old(self).imap()[order_id];
                &&& final(self).side_levels(loc.0) == cancel_view(
                    old(self).side_levels(loc.0),
                    loc.1,
                    order_id,
                )
                &&& final(self).side_levels(loc.0.spec_opposite()) == old(self).side_levels(
                    loc.0.spec_opposite(),
                )
                &&& final(self).imap() == old(self).imap().remove(order_id)
                &&& final(self).book_seq == old(self).book_seq + 1
            }),
            final(self).symbol == old(self).symbol,
            final(self).next_sequence == old(self).next_sequence,
            final(self).next_trade_id == old(self).next_trade_id,
    {
        let loc = index_take(&mut self.index, order_id);
        match loc {
            None => false,
            Some(ie) => {
                proof {
                    lemma_index_map_chars(old(self).index@);
                    let kk = choose|k: int|
                        0 <= k < old(self).index@.len() && (#[trigger] old(
                            self,
                        ).index@[k]).order_id == order_id;
                    assert(ladder_has(
                        old(self).side_levels(ie.side),
                        order_id,
                        ie.price,
                    ));
                    assert(forall|i: int, j: int|
                        0 <= i < j < old(self).side_levels(ie.side).len() ==> price_better(
                            ie.side,
                            (#[trigger] old(self).side_levels(ie.side)[i]).price,
                            (#[trigger] old(self).side_levels(ie.side)[j]).price,
                        ));
                }
                match ie.side {
                    Side::Buy => {
                        proof {
                            lemma_ladder_view_facts(self.bids@);
                            assert forall|i: int, j: int|
                                0 <= i < j < self.bids@.len() implies (#[trigger] self.bids@[i]).price
                                    != (#[trigger] self.bids@[j]).price by {
                                assert(price_better(
                                    Side::Buy,
                                    ladder_view(self.bids@)[i].price,
                                    ladder_view(self.bids@)[j].price,
                                ));
                            }
                        }
                        cancel_in(&mut self.bids, ie.price, order_id);
                    },
                    Side::Sell => {
                        proof {
                            lemma_ladder_view_facts(self.asks@);
                            assert forall|i: int, j: int|
                                0 <= i < j < self.asks@.len() implies (#[trigger] self.asks@[i]).price
                                    != (#[trigger] self.asks@[j]).price by {
                                assert(price_better(
                                    Side::Sell,
                                    ladder_view(self.asks@)[i].price,
                                    ladder_view(self.asks@)[j].price,
                                ));
                            }
                        }
                        cancel_in(&mut self.asks, ie.price, order_id);
                    },
                }
                self.book_seq = self.book_seq + 1;
                proof {
                    lemma_wf_after_cancel(*old(self), *self, ie.side, ie.price, order_id);
                }
                true
            },
        }
    }

    /// The best price on the given side, if the side is non-empty.
    fn best_price(&self, side: Side) -> (r: Option<u64>)
        ensures
            r == (if self.side_levels(side).len() > 0 {
                Some(self.side_levels(side)[0].price)
            } else {
                Option::<u64>::None
            }),
    {
        match side {
            Side::Buy => {
                if self.bids.len() > 0 {
                    Some(self.bids[0].price)
                } else {
                    None
                }
            },
            Side::Sell => {
                if self.asks.len() > 0 {
                    Some(self.asks[0].price)
                } else {
                    None
                }
            },
        }
    }

    /// The entry at the head of the best level on the given side.
    fn peek_best(&self, side: Side) -> (e: OrderEntry)
        requires
            self.wf(),
            self.side_levels(side).len() > 0,
        ensures
            e == self.side_levels(side)[0].entries[0],
    {
        let lvl = match side {
            Side::Buy => &self.bids[0],
            Side::Sell => &self.asks[0],
        };
        proof {
            match side {
                Side::Buy => {
                    lemma_ladder_view_facts(self.bids@);
                    assert(self.side_levels(side)[0].entries == self.bids@[0]@);
                },
                Side::Sell => {
                    lemma_ladder_view_facts(self.asks@);
                    assert(self.side_levels(side)[0].entries == self.asks@[0]@);
                },
            }
            assert(self.side_levels(side)[0].entries.len() > 0);
        }
        lvl.orders[0]
    }

    /// Builds the trade for one fill and advances the trade-id counter.
    fn make_trade(
        &mut self,
        maker: OrderEntry,
        fill: u64,
        price: u64,
        taker_id: u128,
        taker_user: u128,
        taker_side: Side,
    ) -> (t: Trade)
        requires
            old(self).next_trade_id < u64::MAX,
            fill > 0,
            maker.user_id != taker_user,
        ensures
            final(self).next_trade_id == old(self).next_trade_id + 1,
            final(self).symbol == old(self).symbol,
            final(self).bids == old(self).bids,
            final(self).asks == old(self).asks,
            final(self).index == old(self).index,
            final(self).next_sequence == old(self).next_sequence,
            final(self).book_seq == old(self).book_seq,
            trade_matches(
                t,
                TradeRec {
                    trade_id: old(self).next_trade_id as int,
                    maker_order_id: maker.order_id,
                    maker_user_id: maker.user_id,
                    price,
                    quantity: fill as int,
                },
                old(self).symbol@,
                taker_id,
                taker_user,
                taker_side,
            ),
            t.wf(),
    {
        let tid = self.next_trade_id;
        self.next_trade_id = self.next_trade_id + 1;
        proof {
            assert((price as u128) * (fill as u128) <= (u64::MAX as u128) * (u64::MAX as u128))
                by (nonlinear_arith)
                requires price <= u64::MAX, fill <= u64::MAX;
        }
        Trade {
            id: crate::ident::fresh_id(),
            trade_id: tid,
            symbol: self.symbol.duplicate(),
            maker_order_id: maker.order_id,
            maker_user_id: maker.user_id,
            taker_order_id: taker_id,
            taker_user_id: taker_user,
            price,
            quantity: fill,
            quote_quantity: (price as u128) * (fill as u128),
            taker_side,
            executed_at: crate::clock::now_millis(),
        }
    }

    /// Removes the head entry of the best level on `side` from the book,
    /// dropping the emptied level and the entry's index line.
    fn take_best_maker(&mut self, side: Side) -> (e: OrderEntry)
        requires
            old(self).wf(),
            old(self).side_levels(side).len() > 0,
        ensures
            final(self).wf(),
            e == old(self).side_levels(side)[0].entries[0],
            final(self).side_levels(side) == pop_head_view(old(self).side_levels(side)),
            final(self).side_levels(side.spec_opposite()) == old(self).side_levels(
                side.spec_opposite(),
            ),
            final(self).imap() == old(self).imap().remove(e.order_id),
            final(self).symbol == old(self).symbol,
            final(self).next_sequence == old(self).next_sequence,
            final(self).next_trade_id == old(self).next_trade_id,
            final(self).book_seq == old(self).book_seq,
    {
        let head = self.peek_best(side);
        let ghost v0 = old(self).side_levels(side);
        proof {
            assert(v0[0].entries[0] == head);
            assert(self.imap().contains_key(head.order_id) && self.imap()[head.order_id]
                == (side, head.price));
            assert(head.price == v0[0].price);
            assert(ladder_has(v0, head.order_id, head.price));
        }
        let loc = index_take(&mut self.index, head.order_id);
        proof {
            assert(loc is Some);
        }
        match side {
            Side::Buy => {
                proof {
                    lemma_ladder_view_facts(self.bids@);
                    assert forall|i: int, j: int|
                        0 <= i < j < self.bids@.len() implies (#[trigger] self.bids@[i]).price
                            != (#[trigger] self.bids@[j]).price by {
                        assert(price_better(
                            Side::Buy,
                            ladder_view(self.bids@)[i].price,
                            ladder_view(self.bids@)[j].price,
                        ));
                    }
                }
                cancel_in(&mut self.bids, head.price, head.order_id);
            },
            Side::Sell => {
                proof {
                    lemma_ladder_view_facts(self.asks@);
                    assert forall|i: int, j: int|
                        0 <= i < j < self.asks@.len() implies (#[trigger] self.asks@[i]).price
                            != (#[trigger] self.asks@[j]).price by {
                        assert(price_better(
                            Side::Sell,
                            ladder_view(self.asks@)[i].price,
                            ladder_view(self.asks@)[j].price,
                        ));
                    }
                }
                cancel_in(&mut self.asks, head.price, head.order_id);
            },
        }
        proof {
            lemma_pop_is_cancel(v0);
            lemma_wf_after_cancel(*old(self), *self, side, head.price, head.order_id);
        }
        head
    }

    /// Lowers the head maker's remaining quantity in place.
    fn reduce_best_maker(&mut self, side: Side, amount: u64)
        requires
            old(self).wf(),
            old(self).side_levels(side).len() > 0,
            amount < old(self).side_levels(side)[0].entries[0].remaining_quantity,
        ensures
            final(self).wf(),
            final(self).side_levels(side) == reduce_head_view(
                old(self).side_levels(side),
                amount,
            ),
            final(self).side_levels(side.spec_opposite()) == old(self).side_levels(
                side.spec_opposite(),
            ),
            final(self).imap() == old(self).imap(),
            final(self).index == old(self).index,
            final(self).symbol == old(self).symbol,
            final(self).next_sequence == old(self).next_sequence,
            final(self).next_trade_id == old(self).next_trade_id,
            final(self).book_seq == old(self).book_seq,
    {
        proof {
            match side {
                Side::Buy => lemma_ladder_view_facts(self.bids@),
                Side::Sell => lemma_ladder_view_facts(self.asks@),
            }
        }
        match side {
            Side::Buy => {
                let mut lvl = self.bids.remove(0);
                lvl.reduce_head(amount);
                self.bids.insert(0, lvl);
            },
            Side::Sell => {
                let mut lvl = self.asks.remove(0);
                lvl.reduce_head(amount);
                self.asks.insert(0, lvl);
            },
        }
        proof {
            match side {
                Side::Buy => lemma_ladder_view_facts(self.bids@),
                Side::Sell => lemma_ladder_view_facts(self.asks@),
            }
            assert(self.side_levels(side) =~~= reduce_head_view(
                old(self).side_levels(side),
                amount,
            )) by {
                assert(forall|k: int|
                    0 <= k < self.side_levels(side).len() && k != 0
                        ==> #[trigger] self.side_levels(side)[k]
                        == old(self).side_levels(side)[k]);
            }
            lemma_wf_after_reduce(*old(self), *self, side, amount);
        }
    }

    /// Matches the taker against the opposing side. The book, the trades
    /// appended and the makers cancelled by self-trade prevention are
    /// exactly what `spec_match` says of the old book.
    fn match_rec(
        &mut self,
        user: u128,
        taker_side: Side,
        limit: Option<u64>,
        remaining: u64,
        taker_id: u128,
        trades: &mut Vec<Trade>,
        cancels: &mut Vec<OrderEntry>,
    ) -> (rem: u64)
        requires
            old(self).wf(),
            old(self).next_trade_id + entry_count(
                old(self).side_levels(taker_side.spec_opposite()),
            ) + 1 <= u64::MAX,
        ensures
            ({
                let r = spec_match(
                    old(self).side_levels(taker_side.spec_opposite()),
                    old(self).imap(),
                    user,
                    taker_side,
                    limit,
                    remaining as int,
                    old(self).next_trade_id as int,
                );
                &&& final(self).wf()
                &&& final(self).side_levels(taker_side.spec_opposite()) == r.levels
                &&& final(self).side_levels(taker_side) == old(self).side_levels(taker_side)
                &&& final(self).imap() == r.index
                &&& final(self).next_trade_id == r.next_tid
                &&& final(self).next_sequence == old(self).next_sequence
                &&& final(self).book_seq == old(self).book_seq
                &&& final(self).symbol == old(self).symbol
                &&& rem == r.remaining
                &&& final(trades)@.len() == old(trades)@.len() + r.trades.len()
                &&& forall|i: int|
                    0 <= i < old(trades)@.len() ==> #[trigger] final(trades)@[i]
                        == old(trades)@[i]
                &&& forall|j: int|
                    old(trades)@.len() <= j < final(trades)@.len() ==> trade_matches(
                        #[trigger] final(trades)@[j],
                        r.trades[j - old(trades)@.len()],
                        old(self).symbol@,
                        taker_id,
                        user,
                        taker_side,
                    )
                &&& final(cancels)@ == old(cancels)@ + r.cancels
            }),
        decreases entry_count(self.side_levels(taker_side.spec_opposite())),
    {
        let opp = taker_side.opposite();
        let ghost v0 = self.side_levels(opp);
        let ghost m0 = self.imap();
        let ghost tid0 = self.next_trade_id as int;
        let ghost r = spec_match(v0, m0, user, taker_side, limit, remaining as int, tid0);
        if remaining == 0 {
            proof {
                assert(final(cancels)@ =~= old(cancels)@ + r.cancels);
            }
            return remaining;
        }
        let best = self.best_price(opp);
        match best {
            None => {
                proof {
                    assert(v0.len() == 0);
                    assert(final(cancels)@ =~= old(cancels)@ + r.cancels);
                }
                remaining
            },
            Some(p) => {
                let ok = match limit {
                    None => true,
                    Some(lp) => match taker_side {
                        Side::Buy => p <= lp,
                        Side::Sell => p >= lp,
                    },
                };
                if !ok {
                    proof {
                        assert(!crosses(taker_side, limit, p));
                        assert(final(cancels)@ =~= old(cancels)@ + r.cancels);
                    }
                    return remaining;
                }
                proof {
                    assert(crosses(taker_side, limit, p));
                    assert(v0[0].entries.len() > 0);
                    assert(opp.spec_opposite() == taker_side);
                }
                let maker = self.peek_best(opp);
                if maker.user_id == user {
                    let e = self.take_best_maker(opp);
                    cancels.push(e);
                    proof {
                        lemma_entry_count_pop(v0);
                    }
                    let ghost mid = trades@;
                    let rem2 = self.match_rec(
                        user,
                        taker_side,
                        limit,
                        remaining,
                        taker_id,
                        trades,
                        cancels,
                    );
                    proof {
                        let r2 = spec_match(
                            pop_head_view(v0),
                            m0.remove(maker.order_id),
                            user,
                            taker_side,
                            limit,
                            remaining as int,
                            tid0,
                        );
                        assert(r == MatchResult { cancels: seq![maker] + r2.cancels, ..r2 });
                        assert(final(cancels)@ =~= old(cancels)@ + (seq![maker] + r2.cancels));
                        assert forall|j: int|
                            old(trades)@.len() <= j < trades@.len() implies trade_matches(
                            trades@[j],
                            r.trades[j - old(trades)@.len()],
                            old(self).symbol@,
                            taker_id,
                            user,
                            taker_side,
                        ) by {
                            assert(trade_matches(
                                trades@[j],
                                r2.trades[j - mid.len()],
                                old(self).symbol@,
                                taker_id,
                                user,
                                taker_side,
                            ));
                            assert(r.trades[j - old(trades)@.len()] == r2.trades[j - mid.len()]);
                        }
                    }
                    rem2
                } else {
                    let fill = if maker.remaining_quantity <= remaining {
                        maker.remaining_quantity
                    } else {
                        remaining
                    };
                    let t = self.make_trade(maker, fill, p, taker_id, user, taker_side);
                    trades.push(t);
                    let ghost tr = TradeRec {
                        trade_id: tid0,
                        maker_order_id: maker.order_id,
                        maker_user_id: maker.user_id,
                        price: p,
                        quantity: fill as int,
                    };
                    if fill == maker.remaining_quantity {
                        let _e = self.take_best_maker(opp);
                        proof {
                            lemma_entry_count_pop(v0);
                        }
                        let ghost mid = trades@;
                        let rem2 = self.match_rec(
                            user,
                            taker_side,
                            limit,
                            remaining - fill,
                            taker_id,
                            trades,
                            cancels,
                        );
                        proof {
                            let r2 = spec_match(
                                pop_head_view(v0),
                                m0.remove(maker.order_id),
                                user,
                                taker_side,
                                limit,
                                remaining - fill,
                                tid0 + 1,
                            );
                            assert(r == MatchResult { trades: seq![tr] + r2.trades, ..r2 });
                            assert(r.trades.len() == 1 + r2.trades.len());
                            assert((seq![tr] + r2.trades)[0] == tr);
                            assert(forall|i: int|
                                1 <= i < r.trades.len() ==> #[trigger] r.trades[i]
                                    == r2.trades[i - 1]);
                            assert(mid == old(trades)@.push(t));
                            assert forall|j: int|
                                old(trades)@.len() <= j < trades@.len() implies trade_matches(
                                trades@[j],
                                r.trades[j - old(trades)@.len()],
                                old(self).symbol@,
                                taker_id,
                                user,
                                taker_side,
                            ) by {
                                if j == old(trades)@.len() {
                                    assert(trades@[j] == mid[j]);
                                    assert(mid[j] == t);
                                    assert(r.trades[0] == tr);
                                } else {
                                    assert(trade_matches(
                                        trades@[j],
                                        r2.trades[j - mid.len()],
                                        old(self).symbol@,
                                        taker_id,
                                        user,
                                        taker_side,
                                    ));
                                    assert(r.trades[j - old(trades)@.len()]
                                        == r2.trades[j - mid.len()]);
                                }
                            }
                            assert(final(cancels)@ =~= old(cancels)@ + r.cancels);
                        }
                        rem2
                    } else {
                        self.reduce_best_maker(opp, fill);
                        proof {
                            assert(fill == remaining);
                            assert(r == MatchResult {
                                levels: reduce_head_view(v0, remaining),
                                index: m0,
                                trades: seq![tr],
                                cancels: Seq::empty(),
                                remaining: 0,
                                next_tid: tid0 + 1,
                            });
                            assert(r.trades[0] == tr);
                            assert(trades@ == old(trades)@.push(t));
                            assert(trades@[old(trades)@.len() as int] == t);
                            assert(trade_matches(
                                trades@[old(trades)@.len() as int],
                                r.trades[0],
                                old(self).symbol@,
                                taker_id,
                                user,
                                taker_side,
                            ));
                            assert(final(cancels)@ =~= old(cancels)@ + r.cancels);
                        }
                        0
                    }
                }
            },
        }
    }

    /// The crossable liquidity a taker of this side, limit and user could
    /// fill against: the fill-or-kill pre-scan. Saturates just above the
    /// largest order quantity, which no pre-scan comparison can tell apart
    /// from the exact value.
    #[verifier::loop_isolation(false)]
    fn crossable_liquidity(&self, taker_side: Side, limit: Option<u64>, user: u128) -> (r: u128)
        requires
            self.wf(),
        ensures
            ({
                let avail = avail_qty(
                    self.side_levels(taker_side.spec_opposite()),
                    taker_side,
                    limit,
                    user,
                );
                &&& avail <= u64::MAX ==> r == avail
                &&& avail > u64::MAX ==> r == u64::MAX as u128 + 1
            }),
    {
        let cap: u128 = 0x1_0000_0000_0000_0000;
        let opp = taker_side.opposite();
        let ghost v = self.side_levels(opp);
        proof {
            lemma_avail_bounds(v, taker_side, limit, user);
            match opp {
                Side::Buy => lemma_ladder_view_facts(self.bids@),
                Side::Sell => lemma_ladder_view_facts(self.asks@),
            }
        }
        let n = match opp {
            Side::Buy => self.bids.len(),
            Side::Sell => self.asks.len(),
        };
        let mut acc: u128 = 0;
        let mut i: usize = 0;
        proof {
            assert(v.skip(0) =~= v);
        }
        while i < n
            invariant
                i <= n,
                n == v.len(),
                acc < cap,
                acc == avail_qty(v, taker_side, limit, user) - avail_qty(
                    v.skip(i as int),
                    taker_side,
                    limit,
                    user,
                ),
                forall|k: int| 0 <= k < i ==> crosses(taker_side, limit, (#[trigger] v[k]).price),
            decreases n - i,
        {
            let lvl = match opp {
                Side::Buy => &self.bids[i],
                Side::Sell => &self.asks[i],
            };
            proof {
                assert(lvl@ == v[i as int].entries);
                assert(lvl.price == v[i as int].price);
                assert(v.skip(i as int)[0] == v[i as int]);
            }
            let ok = match limit {
                None => true,
                Some(lp) => match taker_side {
                    Side::Buy => lvl.price <= lp,
                    Side::Sell => lvl.price >= lp,
                },
            };
            if !ok {
                proof {
                    assert(avail_qty(v.skip(i as int), taker_side, limit, user) == 0);
                }
                return acc;
            }
            proof {
                assert(v.skip(i as int).drop_first() =~= v.skip(i as int + 1));
                assert(avail_qty(v.skip(i as int), taker_side, limit, user) == other_qty(
                    v[i as int].entries,
                    user,
                ) + avail_qty(v.skip(i as int + 1), taker_side, limit, user));
                lemma_other_qty_bounds(v[i as int].entries, user);
                crate::level::lemma_sum_bounds(v[i as int].entries);
                lemma_avail_bounds(v.skip(i as int + 1), taker_side, limit, user);
            }
            let m = lvl.orders.len();
            let mut acc2: u128 = 0;
            let mut k: usize = 0;
            proof {
                assert(v[i as int].entries.skip(0) =~= v[i as int].entries);
            }
            while k < m
                invariant
                    k <= m,
                    m == v[i as int].entries.len(),
                    i < n,
                    lvl@ == v[i as int].entries,
                    acc2 == other_qty(v[i as int].entries, user) - other_qty(
                        v[i as int].entries.skip(k as int),
                        user,
                    ),
                decreases m - k,
            {
                let e = lvl.orders[k];
                proof {
                    let es = v[i as int].entries;
                    assert(es.skip(k as int)[0] == es[k as int]);
                    assert(es.skip(k as int).drop_first() =~= es.skip(k as int + 1));
                    lemma_other_qty_bounds(es.skip(k as int + 1), user);
                    crate::level::lemma_sum_bounds(es.skip(k as int + 1));
                    lemma_other_qty_bounds(es, user);
                    crate::level::lemma_sum_bounds(es);
                }
                if e.user_id != user {
                    acc2 = acc2 + e.remaining_quantity as u128;
                }
                k = k + 1;
            }
            proof {
                assert(v[i as int].entries.skip(m as int) =~= Seq::<OrderEntry>::empty());
                assert(acc2 == other_qty(v[i as int].entries, user));
                lemma_avail_bounds(v.skip(i as int), taker_side, limit, user);
            }
            if acc2 >= cap - acc {
                proof {
                    assert(avail_qty(v, taker_side, limit, user) >= acc + acc2);
                }
                return cap;
            }
            acc = acc + acc2;
            i = i + 1;
        }
        proof {
            assert(v.skip(n as int) =~= Seq::<LevelView>::empty());
        }
        acc
    }

    /// Rests a new entry on the given side and records it in the location
    /// index.
    fn rest_entry(&mut self, side: Side, e: OrderEntry)
        requires
            old(self).wf(),
            !old(self).imap().contains_key(e.order_id),
            e.remaining_quantity > 0,
            e.price > 0,
            e.sequence < old(self).next_sequence,
        ensures
            final(self).wf(),
            final(self).side_levels(side) == rest_insert_view(
                old(self).side_levels(side),
                e,
                side,
            ),
            final(self).side_levels(side.spec_opposite()) == old(self).side_levels(
                side.spec_opposite(),
            ),
            final(self).imap() == old(self).imap().insert(e.order_id, (side, e.price)),
            final(self).symbol == old(self).symbol,
            final(self).next_sequence == old(self).next_sequence,
            final(self).next_trade_id == old(self).next_trade_id,
            final(self).book_seq == old(self).book_seq,
    {
        self.index.push(IndexEntry { order_id: e.order_id, side, price: e.price });
        let ghost v0 = old(self).side_levels(side);
        let pos: usize;
        match side {
            Side::Buy => {
                pos = rest_in(&mut self.bids, e, Side::Buy);
            },
            Side::Sell => {
                pos = rest_in(&mut self.asks, e, Side::Sell);
            },
        }
        proof {
            lemma_rest_insert_at(v0, pos as int, e, side);
            lemma_wf_after_rest(*old(self), *self, side, e, pos as int);
        }
    }

    /// The number of orders resting in the book: the location index lists
    /// exactly the resting orders, one line each.
    pub fn resting_count(&self) -> (n: usize)
        ensures
            n == self.index@.len(),
    {
        self.index.len()
    }

    /// Whether an order with this id rests in the book.
    pub fn contains_order(&self, id: u128) -> (r: bool)
        requires
            self.wf(),
        ensures
            r == self.imap().contains_key(id),
    {
        proof {
            lemma_index_map_chars(self.index@);
        }
        let n = self.index.len();
        let mut i: usize = 0;
        while i < n
            invariant
                i <= n,
                n == self.index@.len(),
                unique_index_ids(self.index@),
                forall|k: int| 0 <= k < i ==> (#[trigger] self.index@[k]).order_id != id,
            decreases n - i,
        {
            if self.index[i].order_id == id {
                proof {
                    lemma_index_map_chars(self.index@);
                }
                return true;
            }
            i = i + 1;
        }
        proof {
            lemma_index_map_chars(self.index@);
        }
        false
    }

    /// Whether the book's counters have headroom to process one more order
    /// of this side: sequencing, versioning, and one trade id per opposing
    /// entry plus one.
    #[verifier::loop_isolation(false)]
    pub fn can_accept(&self, side: Side) -> (r: bool)
        requires
            self.wf(),
        ensures
            r == (self.next_sequence < u64::MAX && self.book_seq < u64::MAX
                && self.next_trade_id + entry_count(self.side_levels(side.spec_opposite())) + 1
                <= u64::MAX),
    {
        if self.next_sequence == u64::MAX || self.book_seq == u64::MAX {
            return false;
        }
        let opp = side.opposite();
        let ghost v = self.side_levels(opp);
        proof {
            match opp {
                Side::Buy => lemma_ladder_view_facts(self.bids@),
                Side::Sell => lemma_ladder_view_facts(self.asks@),
            }
            assert(v.skip(0) =~= v);
        }
        let n = match opp {
            Side::Buy => self.bids.len(),
            Side::Sell => self.asks.len(),
        };
        let mut count: u128 = 0;
        let mut i: usize = 0;
        while i < n
            invariant
                i <= n,
                n == v.len(),
                count <= u64::MAX,
                count == entry_count(v) - entry_count(v.skip(i as int)),
            decreases n - i,
        {
            let m = match opp {
                Side::Buy => self.bids[i].orders.len(),
                Side::Sell => self.asks[i].orders.len(),
            };
            proof {
                assert(v.skip(i as int)[0] == v[i as int]);
                assert(v.skip(i as int).drop_first() =~= v.skip(i as int + 1));
                assert(m == v[i as int].entries.len());
            }
            count = count + m as u128;
            i = i + 1;
            if count > u64::MAX as u128 {
                // The opposing side alone already exceeds any trade-id
                // headroom.
                return false;
            }
        }
        proof {
            assert(v.skip(n as int) =~= Seq::<LevelView>::empty());
        }
        (self.next_trade_id as u128) + count + 1 <= u64::MAX as u128
    }

    /// The only write entry point for new orders: assigns the sequence
    /// number, matches under price-time priority with self-trade prevention
    /// and the fill-or-kill pre-scan, applies the residual policy of the
    /// order's type and time in force, and returns the final order state,
    /// the trades executed, and the makers cancelled by self-trade
    /// prevention. Everything it does is what `spec_process` says.
    #[verifier::loop_isolation(false)]
    #[verifier::rlimit(100)]
    pub fn process_order(&mut self, order: Order) -> (r: (Order, Vec<Trade>, Vec<OrderEntry>))
        requires
            old(self).wf(),
            order.status == OrderStatus::Pending,
            order.quantity > 0,
            order.filled_quantity == 0,
            order.remaining_quantity == order.quantity,
            order.fill_value == 0,
            order.order_type == OrderType::Market || order.order_type == OrderType::Limit,
            order.order_type == OrderType::Limit <==> order.price is Some,
            order.price is Some ==> order.price.unwrap() > 0,
            order.symbol@ == old(self).symbol@,
            !old(self).imap().contains_key(order.id),
            old(self).next_sequence < u64::MAX,
            old(self).book_seq < u64::MAX,
            old(self).next_trade_id + entry_count(
                old(self).side_levels(order.side.spec_opposite()),
            ) + 1 <= u64::MAX,
        ensures
            ({
                let pv = spec_process(*old(self), order);
                &&& final(self).wf()
                &&& final(self).side_levels(Side::Buy) == pv.bids
                &&& final(self).side_levels(Side::Sell) == pv.asks
                &&& final(self).imap() == pv.index
                &&& final(self).next_sequence == pv.next_sequence
                &&& final(self).next_trade_id == pv.next_trade_id
                &&& final(self).book_seq == pv.book_seq
                &&& final(self).symbol == old(self).symbol
                &&& r.0.id == order.id
                &&& r.0.client_order_id == order.client_order_id
                &&& r.0.user_id == order.user_id
                &&& r.0.symbol == order.symbol
                &&& r.0.side == order.side
                &&& r.0.order_type == order.order_type
                &&& r.0.time_in_force == order.time_in_force
                &&& r.0.price == order.price
                &&& r.0.stop_price == order.stop_price
                &&& r.0.quantity == order.quantity
                &&& r.0.created_at == order.created_at
                &&& r.0.status == pv.status
                &&& r.0.filled_quantity == pv.filled
                &&& r.0.remaining_quantity == pv.remaining
                &&& r.0.fill_value == pv.fill_value
                &&& r.0.sequence == pv.sequence
                &&& r.0.quantities_ok()
                &&& (r.0.status == OrderStatus::Filled <==> r.0.remaining_quantity == 0)
                &&& r.1@.len() == pv.trades.len()
                &&& forall|i: int|
                    0 <= i < pv.trades.len() ==> trade_matches(
                        #[trigger] r.1@[i],
                        pv.trades[i],
                        order.symbol@,
                        order.id,
                        order.user_id,
                        order.side,
                    )
                &&& forall|i: int| 0 <= i < r.1@.len() ==> (#[trigger] r.1@[i]).wf()
                &&& r.2@ == pv.cancels
            }),
    {
        let ghost b0 = *old(self);
        let ghost pv = spec_process(b0, order);
        let opp = order.side.opposite();
        let ghost vopp = b0.side_levels(order.side.spec_opposite());
        let ghost m = spec_match(
            vopp,
            b0.imap(),
            order.user_id,
            order.side,
            order.price,
            order.quantity as int,
            b0.next_trade_id as int,
        );
        let seqno = self.next_sequence;
        self.next_sequence = self.next_sequence + 1;
        proof {
            assert(self.wf()) by {
                assert(levels_wf(self.side_levels(Side::Buy), Side::Buy, self.next_sequence));
                assert(levels_wf(self.side_levels(Side::Sell), Side::Sell, self.next_sequence));
            }
            lemma_match_accounting(
                vopp,
                b0.imap(),
                order.user_id,
                order.side,
                order.price,
                order.quantity as int,
                b0.next_trade_id as int,
            );
        }
        let mut res = order;
        res.sequence = seqno;
        res.status = OrderStatus::Open;

        if res.time_in_force == TimeInForce::FOK {
            let avail = self.crossable_liquidity(res.side, res.price, res.user_id);
            if avail < res.quantity as u128 {
                proof {
                    assert(avail_qty(vopp, order.side, order.price, order.user_id)
                        < order.quantity);
                }
                res.status = OrderStatus::Rejected;
                res.updated_at = crate::clock::now_millis();
                return (res, Vec::new(), Vec::new());
            }
            proof {
                assert(avail_qty(vopp, order.side, order.price, order.user_id)
                    >= order.quantity);
            }
        }

        proof {
            assert(res.side == order.side && res.price == order.price && res.user_id
                == order.user_id && res.id == order.id && res.quantity == order.quantity);
            assert(self.bids == b0.bids && self.asks == b0.asks && self.index == b0.index);
            assert(self.side_levels(Side::Buy) == b0.side_levels(Side::Buy));
            assert(self.side_levels(Side::Sell) == b0.side_levels(Side::Sell));
            assert(self.side_levels(order.side.spec_opposite()) == vopp);
            assert(self.imap() == b0.imap());
            assert(self.symbol == b0.symbol);
            assert(self.next_trade_id == b0.next_trade_id);
        }
        let mut trades: Vec<Trade> = Vec::new();
        let mut cancels: Vec<OrderEntry> = Vec::new();
        let rem = self.match_rec(
            res.user_id,
            res.side,
            res.price,
            res.quantity,
            res.id,
            &mut trades,
            &mut cancels,
        );
        res.filled_quantity = res.quantity - rem;
        res.remaining_quantity = rem;

        // The exact quote value of this call's fills.
        let tlen = trades.len();
        let mut fv: u128 = 0;
        let mut idx: usize = 0;
        proof {
            assert(m.trades.take(0) =~= Seq::<TradeRec>::empty());
        }
        while idx < tlen
            invariant
                idx <= tlen,
                fv == trades_value(m.trades.take(idx as int)),
            decreases tlen - idx,
        {
            let t = &trades[idx];
            proof {
                let mt = m.trades;
                assert(trade_matches(
                    trades@[idx as int],
                    mt[idx as int],
                    order.symbol@,
                    order.id,
                    order.user_id,
                    order.side,
                ));
                lemma_trades_prefix(mt, idx as int);
                assert(forall|j: int|
                    0 <= j < idx as int + 1 ==> #[trigger] mt.take(idx as int + 1)[j] == mt[j]);
                lemma_trades_bounds(mt.take(idx as int + 1));
                lemma_trades_qty_split(mt, idx as int + 1);
                assert(forall|j: int|
                    0 <= j < mt.skip(idx as int + 1).len() ==> #[trigger] mt.skip(
                        idx as int + 1,
                    )[j] == mt[j + idx as int + 1]);
                lemma_trades_qty_nonneg(mt.skip(idx as int + 1));
                assert(trades_qty(mt.take(idx as int + 1)) <= trades_qty(mt));
                assert((u64::MAX as int) * trades_qty(mt.take(idx as int + 1)) <= (
                u64::MAX as int) * trades_qty(mt)) by (nonlinear_arith)
                    requires trades_qty(mt.take(idx as int + 1)) <= trades_qty(mt);
                assert((u64::MAX as int) * trades_qty(mt) <= (u64::MAX as int) * (
                u64::MAX as int)) by (nonlinear_arith)
                    requires 0 <= trades_qty(mt) <= u64::MAX as int;
            }
            fv = fv + (t.price as u128) * (t.quantity as u128);
            idx = idx + 1;
        }
        proof {
            assert(m.trades.take(tlen as int) =~= m.trades);
        }
        res.fill_value = fv;

        let rested: bool;
        if rem == 0 {
            res.status = OrderStatus::Filled;
            rested = false;
        } else if res.order_type == OrderType::Limit && (res.time_in_force == TimeInForce::GTC
            || res.time_in_force == TimeInForce::GTD) {
            let limit_price = match res.price {
                Some(p) => p,
                None => 0,
            };
            let entry = OrderEntry {
                order_id: res.id,
                user_id: res.user_id,
                price: limit_price,
                remaining_quantity: rem,
                sequence: seqno,
            };
            proof {
                assert(!self.imap().contains_key(entry.order_id));
            }
            self.rest_entry(res.side, entry);
            res.status = if res.filled_quantity > 0 {
                OrderStatus::PartiallyFilled
            } else {
                OrderStatus::Open
            };
            rested = true;
        } else {
            res.status = OrderStatus::Cancelled;
            rested = false;
        }
        if trades.len() > 0 || cancels.len() > 0 || rested {
            self.book_seq = self.book_seq + 1;
        }
        res.updated_at = crate::clock::now_millis();
        proof {
            lemma_trades_value_zero(m.trades);
            assert(res.quantities_ok());
            assert forall|i: int| 0 <= i < trades@.len() implies (#[trigger] trades@[i]).wf() by {
                assert(trade_matches(
                    trades@[i],
                    m.trades[i],
                    order.symbol@,
                    order.id,
                    order.user_id,
                    order.side,
                ));
                assert(m.trades[i].quantity > 0 && m.trades[i].maker_user_id != order.user_id);
                assert(trades@[i].quote_quantity == (m.trades[i].price as int)
                    * m.trades[i].quantity);
            }
            if order.side == Side::Buy {
                assert(final(self).side_levels(Side::Buy) == pv.bids);
                assert(final(self).side_levels(Side::Sell) == pv.asks);
            } else {
                assert(final(self).side_levels(Side::Sell) == pv.asks);
                assert(final(self).side_levels(Side::Buy) == pv.bids);
            }
        }
        (res, trades, cancels)
    }
}

/// The complete outcome of processing one order: the new book state, the
/// final order fields, the trades, and the makers cancelled by self-trade
/// prevention.
pub struct ProcessView {
    pub bids: Seq<LevelView>,
    pub asks: Seq<LevelView>,
    pub index: Map<u128, (Side, u64)>,
    pub next_sequence: int,
    pub next_trade_id: int,
    pub book_seq: int,
    pub status: OrderStatus,
    pub filled: int,
    pub remaining: int,
    pub fill_value: int,
    pub sequence: int,
    pub trades: Seq<TradeRec>,
    pub cancels: Seq<OrderEntry>,
    pub rested: bool,
}

/// What processing an order does, as spec.
///
/// A fill-or-kill order whose crossable liquidity from other users falls
/// short of its quantity is rejected with no effect on the book but the
/// sequence counter. Otherwise the order matches per `spec_match`; a fully
/// filled order is `Filled`; a residual limit order under GTC or GTD rests
/// on its own side and is `PartiallyFilled` or `Open`; any other residual is
/// `Cancelled` (a market order for want of liquidity, an IOC's remainder).
/// The book version grows by one exactly when the book visibly changed.
pub open spec fn spec_process(b: OrderBook, o: Order) -> ProcessView {
    let seqno = b.next_sequence;
    let opp = b.side_levels(o.side.spec_opposite());
    if o.time_in_force == TimeInForce::FOK && avail_qty(opp, o.side, o.price, o.user_id)
        < o.quantity {
        ProcessView {
            bids: b.side_levels(Side::Buy),
            asks: b.side_levels(Side::Sell),
            index: b.imap(),
            next_sequence: seqno + 1,
            next_trade_id: b.next_trade_id as int,
            book_seq: b.book_seq as int,
            status: OrderStatus::Rejected,
            filled: 0,
            remaining: o.quantity as int,
            fill_value: 0,
            sequence: seqno as int,
            trades: Seq::empty(),
            cancels: Seq::empty(),
            rested: false,
        }
    } else {
        let m = spec_match(
            opp,
            b.imap(),
            o.user_id,
            o.side,
            o.price,
            o.quantity as int,
            b.next_trade_id as int,
        );
        let filled = o.quantity - m.remaining;
        let rest = m.remaining > 0 && o.order_type == OrderType::Limit && (o.time_in_force
            == TimeInForce::GTC || o.time_in_force == TimeInForce::GTD);
        let status = if m.remaining == 0 {
            OrderStatus::Filled
        } else if rest {
            if filled > 0 {
                OrderStatus::PartiallyFilled
            } else {
                OrderStatus::Open
            }
        } else {
            OrderStatus::Cancelled
        };
        let entry = OrderEntry {
            order_id: o.id,
            user_id: o.user_id,
            price: o.price.unwrap(),
            remaining_quantity: m.remaining as u64,
            sequence: seqno,
        };
        let same = if rest {
            rest_insert_view(b.side_levels(o.side), entry, o.side)
        } else {
            b.side_levels(o.side)
        };
        let index = if rest {
            m.index.insert(o.id, (o.side, o.price.unwrap()))
        } else {
            m.index
        };
        let changed = m.trades.len() > 0 || m.cancels.len() > 0 || rest;
        ProcessView {
            bids: if o.side == Side::Buy {
                same
            } else {
                m.levels
            },
            asks: if o.side == Side::Sell {
                same
            } else {
                m.levels
            },
            index,
            next_sequence: seqno + 1,
            next_trade_id: m.next_tid,
            book_seq: b.book_seq + (if changed {
                1int
            } else {
                0int
            }),
            status,
            filled: filled as int,
            remaining: m.remaining,
            fill_value: trades_value(m.trades),
            sequence: seqno as int,
            trades: m.trades,
            cancels: m.cancels,
            rested: rest,
        }
    }
}

/// The deterministic fields of an executed trade agree with the model's
/// record, and the rest with the taker and the book.
pub open spec fn trade_matches(
    t: Trade,
    m: TradeRec,
    sym: Seq<char>,
    taker_id: u128,
    taker_user: u128,
    taker_side: Side,
) -> bool {
    &&& t.trade_id == m.trade_id
    &&& t.maker_order_id == m.maker_order_id
    &&& t.maker_user_id == m.maker_user_id
    &&& t.price == m.price
    &&& t.quantity == m.quantity
    &&& t.quote_quantity == (m.price as int) * m.quantity
    &&& t.symbol@ == sym
    &&& t.taker_order_id == taker_id
    &&& t.taker_user_id == taker_user
    &&& t.taker_side == taker_side
}

/// Removing the head entry of the best level is a cancel of that entry.
proof fn lemma_pop_is_cancel(v: Seq<LevelView>)
    requires
        v.len() > 0,
        v[0].entries.len() > 0,
        forall|k: int, m: int|
            0 <= k < v[0].entries.len() && 0 <= m < v[0].entries.len() && k != m
                ==> (#[trigger] v[0].entries[k]).order_id != (#[trigger] v[0].entries[m]).order_id,
    ensures
        cancel_view(v, v[0].price, v[0].entries[0].order_id) == pop_head_view(v),
{
    let id = v[0].entries[0].order_id;
    assert(contains_entry(v[0].entries, id));
    crate::level::lemma_find_entry(v[0].entries, id, 0);
    assert(v[0].entries.remove(0) =~= v[0].entries.drop_first());
    if v[0].entries.len() <= 1 {
        assert(v[0].entries.remove(0).len() == 0);
    } else {
        assert(v[0].entries.remove(0).len() > 0);
    }
}

/// Reducing the head maker's quantity leaves a well-formed book.
proof fn lemma_wf_after_reduce(b0: OrderBook, b1: OrderBook, side: Side, amount: u64)
    requires
        b0.wf(),
        b0.side_levels(side).len() > 0,
        b0.side_levels(side)[0].entries.len() > 0,
        amount < b0.side_levels(side)[0].entries[0].remaining_quantity,
        b1.side_levels(side) == reduce_head_view(b0.side_levels(side), amount),
        b1.side_levels(side.spec_opposite()) == b0.side_levels(side.spec_opposite()),
        b1.index == b0.index,
        b1.next_sequence == b0.next_sequence,
        forall|i: int| 0 <= i < b1.bids@.len() ==> (#[trigger] b1.bids@[i]).wf(),
        forall|i: int| 0 <= i < b1.asks@.len() ==> (#[trigger] b1.asks@[i]).wf(),
    ensures
        b1.wf(),
{
    let v0 = b0.side_levels(side);
    let v1 = b1.side_levels(side);
    let osd = side.spec_opposite();
    let e0 = v0[0].entries[0];
    let e1 = OrderEntry { remaining_quantity: (e0.remaining_quantity - amount) as u64, ..e0 };
    assert(forall|a: int|
        0 <= a < v1.len() ==> #[trigger] v1[a] == (if a == 0 {
            LevelView { price: v0[0].price, entries: v0[0].entries.update(0, e1) }
        } else {
            v0[a]
        }));
    assert(forall|k: int|
        0 <= k < v1[0].entries.len() ==> #[trigger] v1[0].entries[k] == (if k == 0 {
            e1
        } else {
            v0[0].entries[k]
        }));
    assert(levels_wf(v1, side, b1.next_sequence));
    assert(ladder_distinct(v1));
    assert forall|k: int| 0 <= k < b1.index@.len() implies ladder_has(
        b1.side_levels((#[trigger] b1.index@[k]).side),
        b1.index@[k].order_id,
        b1.index@[k].price,
    ) by {
        let line = b1.index@[k];
        assert(ladder_has(b0.side_levels(line.side), line.order_id, line.price));
        if line.side == side {
            let t2 = choose|t: int|
                0 <= t < v0.len() && (#[trigger] v0[t]).price == line.price && contains_entry(
                    v0[t].entries,
                    line.order_id,
                );
            let j2 = choose|j: int|
                0 <= j < v0[t2].entries.len() && v0[t2].entries[j].order_id == line.order_id;
            assert(v1[t2].price == line.price);
            assert(v1[t2].entries[j2].order_id == line.order_id);
            assert(contains_entry(v1[t2].entries, line.order_id));
        }
    }
    assert forall|i: int, k: int|
        0 <= i < v1.len() && 0 <= k < v1[i].entries.len() implies ({
        let e = #[trigger] v1[i].entries[k];
        b1.imap().contains_key(e.order_id) && b1.imap()[e.order_id] == (side, e.price)
    }) by {
        let e = v1[i].entries[k];
        let eo = v0[i].entries[k];
        assert(e.order_id == eo.order_id && e.price == eo.price);
        assert(b0.imap().contains_key(eo.order_id) && b0.imap()[eo.order_id] == (side, eo.price));
    }
    if side == Side::Buy {
        assert(b1.entries_indexed(Side::Buy));
        assert(b1.entries_indexed(Side::Sell));
    } else {
        assert(b1.entries_indexed(Side::Sell));
        assert(b1.entries_indexed(Side::Buy));
    }
}

/// Removing a whole level keeps a ladder well-formed and distinct.
proof fn lemma_levels_wf_remove(v: Seq<LevelView>, side: Side, bound: u64, i: int)
    requires
        levels_wf(v, side, bound),
        ladder_distinct(v),
        0 <= i < v.len(),
    ensures
        levels_wf(v.remove(i), side, bound),
        ladder_distinct(v.remove(i)),
{
    let t = v.remove(i);
    assert(forall|a: int|
        0 <= a < t.len() ==> #[trigger] t[a] == (if a < i {
            v[a]
        } else {
            v[a + 1]
        }));
}

/// Shrinking one level's queue by one entry (while it stays non-empty)
/// keeps a ladder well-formed and distinct.
proof fn lemma_levels_wf_shrink(v: Seq<LevelView>, side: Side, bound: u64, i: int, m: int)
    requires
        levels_wf(v, side, bound),
        ladder_distinct(v),
        0 <= i < v.len(),
        0 <= m < v[i].entries.len(),
        v[i].entries.len() >= 2,
    ensures
        levels_wf(
            v.update(i, LevelView { price: v[i].price, entries: v[i].entries.remove(m) }),
            side,
            bound,
        ),
        ladder_distinct(
            v.update(i, LevelView { price: v[i].price, entries: v[i].entries.remove(m) }),
        ),
{
    let rest = v[i].entries.remove(m);
    let t = v.update(i, LevelView { price: v[i].price, entries: rest });
    assert(forall|k: int|
        0 <= k < rest.len() ==> #[trigger] rest[k] == (if k < m {
            v[i].entries[k]
        } else {
            v[i].entries[k + 1]
        }));
    assert(forall|a: int|
        0 <= a < t.len() ==> #[trigger] t[a] == (if a == i {
            LevelView { price: v[i].price, entries: rest }
        } else {
            v[a]
        }));
}

/// Cancelling one resting order leaves a well-formed book.
proof fn lemma_wf_after_cancel(b0: OrderBook, b1: OrderBook, side: Side, p: u64, id: u128)
    requires
        b0.wf(),
        b0.imap().contains_key(id),
        b0.imap()[id] == (side, p),
        b1.side_levels(side) == cancel_view(b0.side_levels(side), p, id),
        b1.side_levels(side.spec_opposite()) == b0.side_levels(side.spec_opposite()),
        b1.index@ == b0.index@.remove(index_find(b0.index@, id)),
        b1.next_sequence == b0.next_sequence,
        forall|i: int| 0 <= i < b1.bids@.len() ==> (#[trigger] b1.bids@[i]).wf(),
        forall|i: int| 0 <= i < b1.asks@.len() ==> (#[trigger] b1.asks@[i]).wf(),
    ensures
        b1.wf(),
{
    let v0 = b0.side_levels(side);
    let v1 = b1.side_levels(side);
    let osd = side.spec_opposite();
    let w = b0.side_levels(osd);

    // The index line being dropped.
    lemma_index_map_chars(b0.index@);
    let kk = choose|k: int|
        0 <= k < b0.index@.len() && (#[trigger] b0.index@[k]).order_id == id;
    let pos = index_find(b0.index@, id);
    lemma_index_find_line(b0.index@, id, kk);
    assert(0 <= pos < b0.index@.len() && b0.index@[pos].order_id == id);
    lemma_index_map_remove(b0.index@, pos);
    assert(b1.imap() == b0.imap().remove(id));

    // The target level and entry.
    assert(ladder_has(v0, id, p));
    let tgt = choose|t: int|
        0 <= t < v0.len() && (#[trigger] v0[t]).price == p && contains_entry(v0[t].entries, id);
    assert(forall|j: int| 0 <= j < tgt ==> (#[trigger] v0[j]).price != p) by {
        assert(forall|j: int|
            0 <= j < tgt ==> price_better(side, (#[trigger] v0[j]).price, v0[tgt].price));
    }
    crate::level::lemma_find_entry_contains(v0[tgt].entries, id);
    let m = find_entry(v0[tgt].entries, id);
    lemma_cancel_view_at(v0, tgt, p, id);
    let rest = v0[tgt].entries.remove(m);
    let en = v0[tgt].entries[m];
    assert(en.order_id == id);

    // New index is the old one without the dropped line.
    assert(forall|a: int|
        0 <= a < b1.index@.len() ==> #[trigger] b1.index@[a] == (if a < pos {
            b0.index@[a]
        } else {
            b0.index@[a + 1]
        }));
    assert(unique_index_ids(b1.index@));

    // The modified side keeps its well-formed shape.
    if rest.len() == 0 {
        lemma_levels_wf_remove(v0, side, b0.next_sequence, tgt);
        assert(v1 == v0.remove(tgt));
    } else {
        lemma_levels_wf_shrink(v0, side, b0.next_sequence, tgt, m);
        assert(v1 == v0.update(tgt, LevelView { price: v0[tgt].price, entries: rest }));
    }
    assert(levels_wf(v1, side, b1.next_sequence));
    assert(ladder_distinct(v1));
    lemma_cancel_index_to_book(b0, b1, side, p, id, tgt, m);
    lemma_cancel_book_to_index(b0, b1, side, p, id, tgt, m);
    if side == Side::Buy {
        assert(levels_wf(b1.side_levels(Side::Buy), Side::Buy, b1.next_sequence));
        assert(levels_wf(b1.side_levels(Side::Sell), Side::Sell, b1.next_sequence));
        assert(ladder_distinct(b1.side_levels(Side::Sell)));
    } else {
        assert(levels_wf(b1.side_levels(Side::Sell), Side::Sell, b1.next_sequence));
        assert(levels_wf(b1.side_levels(Side::Buy), Side::Buy, b1.next_sequence));
        assert(ladder_distinct(b1.side_levels(Side::Buy)));
    }
}

/// After a cancel, every surviving index line still names a resting entry.
#[verifier::rlimit(50)]
proof fn lemma_cancel_index_to_book(
    b0: OrderBook,
    b1: OrderBook,
    side: Side,
    p: u64,
    id: u128,
    tgt: int,
    m: int,
)
    requires
        b0.wf(),
        b0.imap().contains_key(id),
        b0.imap()[id] == (side, p),
        b1.side_levels(side) == cancel_view(b0.side_levels(side), p, id),
        b1.side_levels(side.spec_opposite()) == b0.side_levels(side.spec_opposite()),
        b1.index@ == b0.index@.remove(index_find(b0.index@, id)),
        0 <= tgt < b0.side_levels(side).len(),
        b0.side_levels(side)[tgt].price == p,
        m == find_entry(b0.side_levels(side)[tgt].entries, id),
        0 <= m < b0.side_levels(side)[tgt].entries.len(),
        b0.side_levels(side)[tgt].entries[m].order_id == id,
    ensures
        forall|k: int|
            0 <= k < b1.index@.len() ==> ladder_has(
                b1.side_levels((#[trigger] b1.index@[k]).side),
                b1.index@[k].order_id,
                b1.index@[k].price,
            ),
{
    let v0 = b0.side_levels(side);
    let v1 = b1.side_levels(side);
    let osd = side.spec_opposite();
    let rest = v0[tgt].entries.remove(m);
    lemma_index_map_chars(b0.index@);
    let kk = choose|k: int|
        0 <= k < b0.index@.len() && (#[trigger] b0.index@[k]).order_id == id;
    let pos = index_find(b0.index@, id);
    lemma_index_find_line(b0.index@, id, kk);
    assert(forall|j: int|
        0 <= j < tgt ==> price_better(side, (#[trigger] v0[j]).price, v0[tgt].price));
    lemma_cancel_view_at(v0, tgt, p, id);
    assert(forall|a: int|
        0 <= a < b1.index@.len() ==> #[trigger] b1.index@[a] == (if a < pos {
            b0.index@[a]
        } else {
            b0.index@[a + 1]
        }));
    assert(forall|k: int|
        0 <= k < rest.len() ==> #[trigger] rest[k] == (if k < m {
            v0[tgt].entries[k]
        } else {
            v0[tgt].entries[k + 1]
        }));
    assert forall|k: int| 0 <= k < b1.index@.len() implies ladder_has(
        b1.side_levels((#[trigger] b1.index@[k]).side),
        b1.index@[k].order_id,
        b1.index@[k].price,
    ) by {
        let line = b1.index@[k];
        assert(line.order_id != id);
        assert(ladder_has(b0.side_levels(line.side), line.order_id, line.price));
        if line.side == osd {
            assert(b1.side_levels(line.side) == b0.side_levels(osd));
        } else {
            assert(line.side == side);
            let t2 = choose|t: int|
                0 <= t < v0.len() && (#[trigger] v0[t]).price == line.price && contains_entry(
                    v0[t].entries,
                    line.order_id,
                );
            let j2 = choose|j: int|
                0 <= j < v0[t2].entries.len() && v0[t2].entries[j].order_id == line.order_id;
            if t2 == tgt {
                assert(j2 != m);
                assert(rest.len() > 0) by {
                    if v0[tgt].entries.len() == 1 {
                        assert(j2 == m);
                    }
                }
                let j3: int = if j2 < m { j2 } else { j2 - 1 };
                assert(rest[j3].order_id == line.order_id);
                assert(v1[tgt].price == line.price);
                assert(contains_entry(v1[tgt].entries, line.order_id));
            } else if rest.len() == 0 {
                let t3: int = if t2 < tgt { t2 } else { t2 - 1 };
                assert(v1 == v0.remove(tgt));
                assert(v1[t3] == v0[t2]);
                assert(contains_entry(v1[t3].entries, line.order_id));
            } else {
                assert(v1 == v0.update(
                    tgt,
                    LevelView { price: v0[tgt].price, entries: rest },
                ));
                assert(v1[t2] == v0[t2]);
                assert(contains_entry(v1[t2].entries, line.order_id));
            }
        }
    }
}

/// After a cancel, every entry still resting is still indexed at its side
/// and price.
#[verifier::rlimit(50)]
proof fn lemma_cancel_book_to_index(
    b0: OrderBook,
    b1: OrderBook,
    side: Side,
    p: u64,
    id: u128,
    tgt: int,
    m: int,
)
    requires
        b0.wf(),
        b0.imap().contains_key(id),
        b0.imap()[id] == (side, p),
        b1.side_levels(side) == cancel_view(b0.side_levels(side), p, id),
        b1.side_levels(side.spec_opposite()) == b0.side_levels(side.spec_opposite()),
        b1.index@ == b0.index@.remove(index_find(b0.index@, id)),
        0 <= tgt < b0.side_levels(side).len(),
        b0.side_levels(side)[tgt].price == p,
        m == find_entry(b0.side_levels(side)[tgt].entries, id),
        0 <= m < b0.side_levels(side)[tgt].entries.len(),
        b0.side_levels(side)[tgt].entries[m].order_id == id,
        contains_entry(b0.side_levels(side)[tgt].entries, id),
    ensures
        b1.entries_indexed(Side::Buy),
        b1.entries_indexed(Side::Sell),
{
    let v0 = b0.side_levels(side);
    let v1 = b1.side_levels(side);
    let osd = side.spec_opposite();
    let rest = v0[tgt].entries.remove(m);
    lemma_index_map_chars(b0.index@);
    let kk = choose|k: int|
        0 <= k < b0.index@.len() && (#[trigger] b0.index@[k]).order_id == id;
    let pos = index_find(b0.index@, id);
    lemma_index_find_line(b0.index@, id, kk);
    lemma_index_map_remove(b0.index@, pos);
    assert(b1.imap() == b0.imap().remove(id));
    assert(forall|j: int|
        0 <= j < tgt ==> price_better(side, (#[trigger] v0[j]).price, v0[tgt].price));
    lemma_cancel_view_at(v0, tgt, p, id);
    assert(forall|k: int|
        0 <= k < rest.len() ==> #[trigger] rest[k] == (if k < m {
            v0[tgt].entries[k]
        } else {
            v0[tgt].entries[k + 1]
        }));

    // Untouched side.
    assert forall|i: int, k: int|
        0 <= i < b1.side_levels(osd).len() && 0 <= k
            < b1.side_levels(osd)[i].entries.len() implies ({
        let e = #[trigger] b1.side_levels(osd)[i].entries[k];
        b1.imap().contains_key(e.order_id) && b1.imap()[e.order_id] == (osd, e.price)
    }) by {
        let e = b1.side_levels(osd)[i].entries[k];
        assert(b0.imap().contains_key(e.order_id) && b0.imap()[e.order_id] == (osd, e.price));
        assert(e.order_id != id);
    }

    // Touched side.
    assert forall|i: int, k: int|
        0 <= i < v1.len() && 0 <= k < v1[i].entries.len() implies ({
        let e = #[trigger] v1[i].entries[k];
        b1.imap().contains_key(e.order_id) && b1.imap()[e.order_id] == (side, e.price)
    }) by {
        let e = v1[i].entries[k];
        if rest.len() == 0 {
            assert(v1 == v0.remove(tgt));
            let i0: int = if i < tgt { i } else { i + 1 };
            assert(v1[i] == v0[i0]);
            assert(e == v0[i0].entries[k]);
            assert(e.order_id != id) by {
                if i0 != tgt {
                    assert(v0[i0].entries[k].order_id != v0[tgt].entries[m].order_id);
                }
            }
            assert(b0.imap()[e.order_id] == (side, e.price));
        } else {
            assert(v1 == v0.update(tgt, LevelView { price: v0[tgt].price, entries: rest }));
            if i == tgt {
                let k0: int = if k < m { k } else { k + 1 };
                assert(e == v0[tgt].entries[k0]);
                assert(e.order_id != id) by {
                    assert(k0 != m);
                    assert(v0[tgt].entries[k0].order_id != v0[tgt].entries[m].order_id);
                }
            } else {
                assert(e == v0[i].entries[k]);
                assert(e.order_id != id) by {
                    assert(v0[i].entries[k].order_id != v0[tgt].entries[m].order_id);
                }
            }
            assert(b0.imap().contains_key(e.order_id) && b0.imap()[e.order_id] == (side, e.price));
        }
    }
    if side == Side::Buy {
        assert(b1.entries_indexed(Side::Buy));
        assert(b1.entries_indexed(Side::Sell));
    } else {
        assert(b1.entries_indexed(Side::Sell));
        assert(b1.entries_indexed(Side::Buy));
    }
}

/// A line with the id somewhere in the sequence puts `index_find` in range,
/// on a line with that id.
proof fn lemma_index_find_line(s: Seq<IndexEntry>, id: u128, w: int)
    requires
        0 <= w < s.len(),
        s[w].order_id == id,
    ensures
        0 <= index_find(s, id) < s.len(),
        s[index_find(s, id)].order_id == id,
    decreases s.len(),
{
    if s[0].order_id == id {
    } else {
        let t = s.drop_first();
        assert(t[w - 1].order_id == id);
        lemma_index_find_line(t, id, w - 1);
        assert(forall|k: int| 1 <= k < s.len() ==> s[k] == t[k - 1]);
    }
}

/// `cancel_view` acts at the unique level with the target price and leaves
/// the rest of the ladder alone.
proof fn lemma_cancel_view_at(l: Seq<LevelView>, i: int, price: u64, id: u128)
    requires
        0 <= i < l.len(),
        l[i].price == price,
        forall|j: int| 0 <= j < i ==> (#[trigger] l[j]).price != price,
        contains_entry(l[i].entries, id),
    ensures
        cancel_view(l, price, id) == (if l[i].entries.remove(
            find_entry(l[i].entries, id),
        ).len() == 0 {
            l.remove(i)
        } else {
            l.update(
                i,
                LevelView {
                    price,
                    entries: l[i].entries.remove(find_entry(l[i].entries, id)),
                },
            )
        }),
    decreases i,
{
    if i == 0 {
        if l[0].entries.remove(find_entry(l[0].entries, id)).len() == 0 {
            assert(l.drop_first() =~= l.remove(0));
        }
    } else {
        let t = l.drop_first();
        assert(forall|j: int| 0 <= j < i - 1 ==> t[j] == l[j + 1]);
        assert(contains_entry(t[i - 1].entries, id));
        lemma_cancel_view_at(t, i - 1, price, id);
        if l[i].entries.remove(find_entry(l[i].entries, id)).len() == 0 {
            assert(seq![l[0]] + t.remove(i - 1) =~= l.remove(i));
        } else {
            let lv = LevelView {
                price,
                entries: l[i].entries.remove(find_entry(l[i].entries, id)),
            };
            assert(seq![l[0]] + t.update(i - 1, lv) =~= l.update(i, lv));
        }
    }
}

/// Position of the first index line with the given order id, or the length
/// if none.
pub open spec fn index_find(s: Seq<IndexEntry>, id: u128) -> int
    decreases s.len(),
{
    if s.len() == 0 {
        0
    } else if s[0].order_id == id {
        0
    } else {
        1 + index_find(s.drop_first(), id)
    }
}

/// `index_find` names the position of the earliest line with the id.
proof fn lemma_index_find(s: Seq<IndexEntry>, id: u128, i: int)
    requires
        0 <= i <= s.len(),
        forall|k: int| 0 <= k < i ==> s[k].order_id != id,
        i < s.len() ==> s[i].order_id == id,
    ensures
        index_find(s, id) == i,
    decreases i,
{
    if s.len() == 0 {
    } else if i == 0 {
    } else {
        let t = s.drop_first();
        assert(forall|k: int| 0 <= k < i - 1 ==> t[k] == s[k + 1] && t[k].order_id != id);
        lemma_index_find(t, id, i - 1);
    }
}

/// Scans the index for `id`; on a hit removes that line and returns it.
fn index_take(index: &mut Vec<IndexEntry>, id: u128) -> (r: Option<IndexEntry>)
    requires
        unique_index_ids(old(index)@),
    ensures
        unique_index_ids(final(index)@),
        r is None ==> *final(index) == *old(index) && !index_map(old(index)@).contains_key(id),
        r is Some ==> ({
            let p = index_find(old(index)@, id);
            &&& 0 <= p < old(index)@.len()
            &&& old(index)@[p].order_id == id
            &&& r == Some(old(index)@[p])
            &&& final(index)@ == old(index)@.remove(p)
            &&& index_map(old(index)@).contains_key(id)
            &&& index_map(old(index)@)[id] == (old(index)@[p].side, old(index)@[p].price)
            &&& index_map(final(index)@) == index_map(old(index)@).remove(id)
        }),
{
    let n = index.len();
    let mut i: usize = 0;
    while i < n
        invariant
            i <= n,
            n == index@.len(),
            *index == *old(index),
            unique_index_ids(index@),
            forall|k: int| 0 <= k < i ==> (#[trigger] index@[k]).order_id != id,
        decreases n - i,
    {
        if index[i].order_id == id {
            proof {
                lemma_index_find(index@, id, i as int);
                lemma_index_map_chars(index@);
                lemma_index_map_remove(index@, i as int);
            }
            let e = index.remove(i);
            proof {
                assert(forall|a: int, b: int|
                    0 <= a < b < index@.len() ==> (#[trigger] index@[a]).order_id
                        != (#[trigger] index@[b]).order_id) by {
                    assert(forall|a: int|
                        0 <= a < index@.len() ==> index@[a] == (if a < i as int {
                            old(index)@[a]
                        } else {
                            old(index)@[a + 1]
                        }));
                }
            }
            return Some(e);
        }
        i = i + 1;
    }
    proof {
        lemma_index_map_chars(index@);
    }
    None
}

/// Removes the entry with order id `id` from the level priced `price`,
/// dropping the level if it empties; the ladder's view becomes exactly
/// `cancel_view` of the old one.
#[verifier::loop_isolation(false)]
fn cancel_in(side: &mut Vec<Level>, price: u64, id: u128)
    requires
        forall|i: int| 0 <= i < old(side)@.len() ==> (#[trigger] old(side)@[i]).wf(),
        forall|i: int, j: int|
            0 <= i < j < old(side)@.len() ==> (#[trigger] old(side)@[i]).price
                != (#[trigger] old(side)@[j]).price,
        ladder_has(ladder_view(old(side)@), id, price),
    ensures
        forall|i: int| 0 <= i < final(side)@.len() ==> (#[trigger] final(side)@[i]).wf(),
        ladder_view(final(side)@) == cancel_view(ladder_view(old(side)@), price, id),
{
    let ghost v0 = ladder_view(old(side)@);
    let n = side.len();
    let ghost tgt: int = choose|t: int|
        0 <= t < v0.len() && (#[trigger] v0[t]).price == price && contains_entry(
            v0[t].entries,
            id,
        );
    let mut i: usize = 0;
    while i < n
        invariant
            i <= n,
            n == side@.len(),
            side == old(side),
            0 <= tgt < v0.len(),
            v0 == ladder_view(side@),
            v0[tgt].price == price,
            contains_entry(v0[tgt].entries, id),
            forall|k: int| 0 <= k < i ==> (#[trigger] side@[k]).price != price,
        decreases n - i,
    {
        if side[i].price == price {
            proof {
                lemma_ladder_view_facts(side@);
                assert(i as int == tgt) by {
                    lemma_ladder_view_facts(side@);
                    assert(v0[tgt].price == side@[tgt].price);
                    if (i as int) < tgt {
                        assert(old(side)@[i as int].price != old(side)@[tgt].price);
                    } else if tgt < i as int {
                        assert(side@[tgt].price != price);
                    }
                }
                assert(old(side)@[i as int].wf());
                assert(v0[i as int].entries == side@[i as int]@);
                lemma_cancel_view_at(v0, i as int, price, id);
            }
            let mut lvl = side.remove(i);
            let removed = lvl.remove_by_id(id);
            assert(removed is Some);
            if lvl.is_empty() {
                proof {
                    assert(ladder_view(side@) =~= v0.remove(i as int));
                    assert(forall|k: int|
                        0 <= k < side@.len() ==> #[trigger] side@[k] == (if k < i as int {
                            old(side)@[k]
                        } else {
                            old(side)@[k + 1]
                        }));
                }
            } else {
                side.insert(i, lvl);
                proof {
                    let lv = LevelView {
                        price,
                        entries: v0[tgt].entries.remove(find_entry(v0[tgt].entries, id)),
                    };
                    assert(ladder_view(side@) =~= v0.update(i as int, lv));
                    assert(forall|k: int|
                        0 <= k < side@.len() ==> #[trigger] side@[k] == (if k == i as int {
                            side@[i as int]
                        } else {
                            old(side)@[k]
                        }));
                }
            }
            return;
        }
        i = i + 1;
    }
    proof {
        assert(side@[tgt].price == price);
        assert(false);
    }
}

/// The depth lines for the first `levels` levels of one ladder.
fn depth_of(side: &Vec<Level>, levels: usize) -> (r: Vec<crate::types::PriceLevel>)
    requires
        forall|i: int| 0 <= i < side@.len() ==> (#[trigger] side@[i]).wf(),
    ensures
        r@.len() == vstd::math::min(levels as int, side@.len() as int),
        forall|i: int|
            0 <= i < r@.len() ==> {
                let lv = ladder_view(side@)[i];
                &&& (#[trigger] r@[i]).price == lv.price
                &&& r@[i].quantity == sum_remaining(lv.entries)
                &&& r@[i].order_count == lv.entries.len()
            },
{
    let n = if levels < side.len() {
        levels
    } else {
        side.len()
    };
    let mut out: Vec<crate::types::PriceLevel> = Vec::new();
    let mut i: usize = 0;
    while i < n
        invariant
            i <= n,
            n == vstd::math::min(levels as int, side@.len() as int),
            forall|k: int| 0 <= k < side@.len() ==> (#[trigger] side@[k]).wf(),
            out@.len() == i,
            forall|k: int|
                0 <= k < i ==> {
                    let lv = ladder_view(side@)[k];
                    &&& (#[trigger] out@[k]).price == lv.price
                    &&& out@[k].quantity == sum_remaining(lv.entries)
                    &&& out@[k].order_count == lv.entries.len()
                },
        decreases n - i,
    {
        let lvl = &side[i];
        out.push(crate::types::PriceLevel {
            price: lvl.price,
            quantity: lvl.total_quantity,
            order_count: lvl.orders.len(),
        });
        i = i + 1;
    }
    out
}

/// Whether `a` is a strictly better resting price than `b` on this side.
fn better_price(side: Side, a: u64, b: u64) -> (r: bool)
    ensures
        r == price_better(side, a, b),
{
    match side {
        Side::Buy => a > b,
        Side::Sell => a < b,
    }
}

/// `rest_insert_view` appends to the level with the entry's price, or makes
/// a fresh level at the sorted position.
proof fn lemma_rest_insert_at(v: Seq<LevelView>, pos: int, e: OrderEntry, side: Side)
    requires
        0 <= pos <= v.len(),
        forall|k: int| 0 <= k < pos ==> price_better(side, (#[trigger] v[k]).price, e.price),
        pos < v.len() ==> !price_better(side, v[pos].price, e.price),
    ensures
        rest_insert_view(v, e, side) == (if pos < v.len() && v[pos].price == e.price {
            v.update(pos, LevelView { price: v[pos].price, entries: v[pos].entries.push(e) })
        } else {
            v.insert(pos, LevelView { price: e.price, entries: seq![e] })
        }),
    decreases pos,
{
    if v.len() == 0 {
        assert(v.insert(0, LevelView { price: e.price, entries: seq![e] }) =~= seq![
            LevelView { price: e.price, entries: seq![e] },
        ]);
    } else if pos == 0 {
        if v[0].price == e.price {
        } else {
            assert(!price_better(side, v[0].price, e.price));
            assert(v.insert(0, LevelView { price: e.price, entries: seq![e] }) =~= seq![
                LevelView { price: e.price, entries: seq![e] },
            ] + v);
        }
    } else {
        assert(price_better(side, v[0].price, e.price));
        assert(v[0].price != e.price);
        let t = v.drop_first();
        assert(forall|k: int| 0 <= k < pos - 1 ==> t[k] == v[k + 1]);
        lemma_rest_insert_at(t, pos - 1, e, side);
        if pos < v.len() && v[pos].price == e.price {
            let lv = LevelView { price: v[pos].price, entries: v[pos].entries.push(e) };
            assert(t[pos - 1] == v[pos]);
            assert(seq![v[0]] + t.update(pos - 1, lv) =~= v.update(pos, lv));
        } else {
            let lv = LevelView { price: e.price, entries: seq![e] };
            assert(seq![v[0]] + t.insert(pos - 1, lv) =~= v.insert(pos, lv));
        }
    }
}

/// Inserts a resting entry into one ladder at its price's level, making the
/// level if it is missing.
#[verifier::loop_isolation(false)]
fn rest_in(side: &mut Vec<Level>, e: OrderEntry, sd: Side) -> (pos: usize)
    requires
        forall|i: int| 0 <= i < old(side)@.len() ==> (#[trigger] old(side)@[i]).wf(),
        forall|i: int, j: int|
            0 <= i < j < old(side)@.len() ==> price_better(
                sd,
                (#[trigger] ladder_view(old(side)@)[i]).price,
                (#[trigger] ladder_view(old(side)@)[j]).price,
            ),
        e.remaining_quantity > 0,
    ensures
        forall|i: int| 0 <= i < final(side)@.len() ==> (#[trigger] final(side)@[i]).wf(),
        ladder_view(final(side)@) == rest_insert_view(ladder_view(old(side)@), e, sd),
        0 <= pos <= old(side)@.len(),
        forall|k: int|
            0 <= k < pos ==> price_better(
                sd,
                (#[trigger] ladder_view(old(side)@)[k]).price,
                e.price,
            ),
        pos < old(side)@.len() ==> !price_better(
            sd,
            ladder_view(old(side)@)[pos as int].price,
            e.price,
        ),
        ladder_view(final(side)@) == (
        if (pos as int) < old(side)@.len() && ladder_view(old(side)@)[pos as int].price == e.price {
            ladder_view(old(side)@).update(
                pos as int,
                LevelView {
                    price: ladder_view(old(side)@)[pos as int].price,
                    entries: ladder_view(old(side)@)[pos as int].entries.push(e),
                },
            )
        } else {
            ladder_view(old(side)@).insert(
                pos as int,
                LevelView { price: e.price, entries: seq![e] },
            )
        }),
{
    let ghost v0 = ladder_view(old(side)@);
    proof {
        lemma_ladder_view_facts(side@);
    }
    let n = side.len();
    let mut i: usize = 0;
    while i < n && better_price(sd, side[i].price, e.price)
        invariant
            i <= n,
            *side == *old(side),
            forall|k: int| 0 <= k < i ==> price_better(sd, (#[trigger] v0[k]).price, e.price),
        decreases n - i,
    {
        i = i + 1;
    }
    proof {
        lemma_rest_insert_at(v0, i as int, e, sd);
    }
    if i < n && side[i].price == e.price {
        let mut lvl = side.remove(i);
        lvl.add(e);
        side.insert(i, lvl);
        proof {
            lemma_ladder_view_facts(side@);
            assert(forall|k: int|
                0 <= k < side@.len() ==> #[trigger] side@[k] == (if k == i as int {
                    side@[i as int]
                } else {
                    old(side)@[k]
                }));
            assert(ladder_view(side@) =~~= v0.update(
                i as int,
                LevelView { price: v0[i as int].price, entries: v0[i as int].entries.push(e) },
            ));
        }
    } else {
        let mut lvl = Level::new(e.price);
        lvl.add(e);
        side.insert(i, lvl);
        proof {
            lemma_ladder_view_facts(side@);
            assert(forall|k: int|
                0 <= k < side@.len() ==> #[trigger] side@[k] == (if k < i as int {
                    old(side)@[k]
                } else if k == i as int {
                    side@[i as int]
                } else {
                    old(side)@[k - 1]
                }));
            assert(lvl@ =~= seq![e]);
            assert(ladder_view(side@) =~~= v0.insert(
                i as int,
                LevelView { price: e.price, entries: seq![e] },
            ));
        }
    }
    i
}

/// Resting a fresh entry leaves a well-formed book.
#[verifier::rlimit(100)]
proof fn lemma_wf_after_rest(b0: OrderBook, b1: OrderBook, side: Side, e: OrderEntry, pos: int)
    requires
        b0.wf(),
        !b0.imap().contains_key(e.order_id),
        e.remaining_quantity > 0,
        e.price > 0,
        b1.next_sequence == b0.next_sequence,
        e.sequence < b1.next_sequence,
        0 <= pos <= b0.side_levels(side).len(),
        forall|k: int|
            0 <= k < pos ==> price_better(side, (#[trigger] b0.side_levels(side)[k]).price, e.price),
        pos < b0.side_levels(side).len() ==> !price_better(
            side,
            b0.side_levels(side)[pos].price,
            e.price,
        ),
        b1.side_levels(side) == (
        if pos < b0.side_levels(side).len() && b0.side_levels(side)[pos].price == e.price {
            b0.side_levels(side).update(
                pos,
                LevelView {
                    price: b0.side_levels(side)[pos].price,
                    entries: b0.side_levels(side)[pos].entries.push(e),
                },
            )
        } else {
            b0.side_levels(side).insert(pos, LevelView { price: e.price, entries: seq![e] })
        }),
        b1.side_levels(side.spec_opposite()) == b0.side_levels(side.spec_opposite()),
        b1.index@ == b0.index@.push(
            IndexEntry { order_id: e.order_id, side, price: e.price },
        ),
        forall|i: int| 0 <= i < b1.bids@.len() ==> (#[trigger] b1.bids@[i]).wf(),
        forall|i: int| 0 <= i < b1.asks@.len() ==> (#[trigger] b1.asks@[i]).wf(),
    ensures
        b1.wf(),
        b1.imap() == b0.imap().insert(e.order_id, (side, e.price)),
{
    let v0 = b0.side_levels(side);
    let v1 = b1.side_levels(side);
    let osd = side.spec_opposite();
    let line = IndexEntry { order_id: e.order_id, side, price: e.price };
    lemma_index_map_chars(b0.index@);
    lemma_index_map_push(b0.index@, line);
    assert(b1.imap() == b0.imap().insert(e.order_id, (side, e.price)));
    assert(forall|k: int| 0 <= k < b0.index@.len() ==> #[trigger] b1.index@[k] == b0.index@[k]);
    assert(b1.index@[b0.index@.len() as int] == line);
    assert(forall|k: int|
        0 <= k < b0.index@.len() ==> (#[trigger] b0.index@[k]).order_id != e.order_id);
    assert(unique_index_ids(b1.index@));

    // No resting entry already carries the new id.
    assert forall|i: int, k: int|
        0 <= i < v0.len() && 0 <= k < v0[i].entries.len() implies (#[trigger] v0[i].entries[k]).order_id
        != e.order_id by {
        if v0[i].entries[k].order_id == e.order_id {
            assert(b0.imap().contains_key(e.order_id));
        }
    }
    assert forall|i: int, k: int|
        0 <= i < b0.side_levels(osd).len() && 0 <= k
            < b0.side_levels(osd)[i].entries.len() implies (#[trigger] b0.side_levels(
        osd,
    )[i].entries[k]).order_id != e.order_id by {
        if b0.side_levels(osd)[i].entries[k].order_id == e.order_id {
            assert(b0.imap().contains_key(e.order_id));
        }
    }

    let upd = pos < v0.len() && v0[pos].price == e.price;
    if upd {
        assert(forall|a: int|
            0 <= a < v1.len() ==> #[trigger] v1[a] == (if a == pos {
                LevelView { price: v0[pos].price, entries: v0[pos].entries.push(e) }
            } else {
                v0[a]
            }));
        assert(forall|k: int|
            0 <= k < v1[pos].entries.len() ==> #[trigger] v1[pos].entries[k] == (if k
                < v0[pos].entries.len() {
                v0[pos].entries[k]
            } else {
                e
            }));
    } else {
        assert(pos < v0.len() ==> price_better(side, e.price, v0[pos].price));
        assert(forall|a: int|
            0 <= a < v1.len() ==> #[trigger] v1[a] == (if a < pos {
                v0[a]
            } else if a == pos {
                LevelView { price: e.price, entries: seq![e] }
            } else {
                v0[a - 1]
            }));
    }
    assert(levels_wf(v1, side, b1.next_sequence));
    assert(ladder_distinct(v1));

    // Every index line names a resting entry.
    assert forall|k: int| 0 <= k < b1.index@.len() implies ladder_has(
        b1.side_levels((#[trigger] b1.index@[k]).side),
        b1.index@[k].order_id,
        b1.index@[k].price,
    ) by {
        let ln = b1.index@[k];
        if k == b0.index@.len() {
            assert(v1[pos].price == e.price);
            assert(contains_entry(v1[pos].entries, e.order_id)) by {
                if upd {
                    assert(v1[pos].entries[v0[pos].entries.len() as int] == e);
                } else {
                    assert(v1[pos].entries[0] == e);
                }
            }
            assert(ladder_has(v1, e.order_id, e.price));
        } else {
            assert(ln == b0.index@[k]);
            assert(ladder_has(b0.side_levels(ln.side), ln.order_id, ln.price));
            if ln.side == osd {
            } else {
                assert(ln.side == side);
                let t2 = choose|t: int|
                    0 <= t < v0.len() && (#[trigger] v0[t]).price == ln.price && contains_entry(
                        v0[t].entries,
                        ln.order_id,
                    );
                let j2 = choose|j: int|
                    0 <= j < v0[t2].entries.len() && v0[t2].entries[j].order_id == ln.order_id;
                if upd {
                    assert(v1[t2].price == ln.price);
                    assert(v1[t2].entries[j2].order_id == ln.order_id);
                    assert(contains_entry(v1[t2].entries, ln.order_id));
                } else {
                    let t3: int = if t2 < pos { t2 } else { t2 + 1 };
                    assert(v1[t3] == v0[t2]);
                    assert(contains_entry(v1[t3].entries, ln.order_id));
                    assert(ladder_has(v1, ln.order_id, ln.price));
                }
            }
        }
    }

    // Every resting entry is indexed.
    assert forall|i: int, k: int|
        0 <= i < v1.len() && 0 <= k < v1[i].entries.len() implies ({
        let en = #[trigger] v1[i].entries[k];
        b1.imap().contains_key(en.order_id) && b1.imap()[en.order_id] == (side, en.price)
    }) by {
        let en = v1[i].entries[k];
        if upd {
            if i == pos && k == v0[pos].entries.len() {
                assert(en == e);
            } else {
                assert(en == v0[i].entries[k]);
                assert(en.order_id != e.order_id);
                assert(b0.imap()[en.order_id] == (side, en.price));
            }
        } else {
            if i == pos {
                assert(en == e);
            } else {
                let i0: int = if i < pos { i } else { i - 1 };
                assert(en == v0[i0].entries[k]);
                assert(en.order_id != e.order_id);
                assert(b0.imap()[en.order_id] == (side, en.price));
            }
        }
    }
    assert forall|i: int, k: int|
        0 <= i < b1.side_levels(osd).len() && 0 <= k
            < b1.side_levels(osd)[i].entries.len() implies ({
        let en = #[trigger] b1.side_levels(osd)[i].entries[k];
        b1.imap().contains_key(en.order_id) && b1.imap()[en.order_id] == (osd, en.price)
    }) by {
        let en = b1.side_levels(osd)[i].entries[k];
        assert(b0.imap().contains_key(en.order_id) && b0.imap()[en.order_id] == (osd, en.price));
        assert(en.order_id != e.order_id);
    }
    if side == Side::Buy {
        assert(b1.entries_indexed(Side::Buy));
        assert(b1.entries_indexed(Side::Sell));
    } else {
        assert(b1.entries_indexed(Side::Sell));
        assert(b1.entries_indexed(Side::Buy));
    }
}

} // verus!
