//! The multi-symbol matching engine: routes commands to the book of their
//! symbol and hands back what the book did, for the edge to publish.
//!
//! Per-symbol serialization and the command channel live at the unverified
//! edge; every decision about a book happens here and in `orderbook`.

use vstd::prelude::*;

use crate::error::TradingError;
use crate::level::OrderEntry;
use crate::model::{cancel_view, entry_count, levels_wf};
use crate::orderbook::{spec_process, OrderBook};
use crate::types::{Order, OrderStatus, OrderType, PriceLevel, Side, Symbol, Trade};

verus! {

/// A command for the matching engine.
pub enum OrderCommand {
    NewOrder(Order),
    CancelOrder { order_id: u128, symbol: Symbol },
}

/// Index of the first book with the given symbol, or the length if none.
pub open spec fn find_book(s: Seq<OrderBook>, sym: Seq<char>) -> int
    decreases s.len(),
{
    if s.len() == 0 {
        0
    } else if s[0].symbol@ == sym {
        0
    } else {
        1 + find_book(s.drop_first(), sym)
    }
}

proof fn lemma_find_book(s: Seq<OrderBook>, sym: Seq<char>, i: int)
    requires
        0 <= i <= s.len(),
        forall|k: int| 0 <= k < i ==> (#[trigger] s[k]).symbol@ != sym,
        i < s.len() ==> s[i].symbol@ == sym,
    ensures
        find_book(s, sym) == i,
    decreases i,
{
    if s.len() == 0 {
    } else if i == 0 {
    } else {
        let t = s.drop_first();
        assert(forall|k: int| 0 <= k < i - 1 ==> #[trigger] t[k] == s[k + 1]);
        lemma_find_book(t, sym, i - 1);
    }
}

/// The multi-symbol coordinator: one order book per supported symbol, and
/// the engine-wide order sequence counter. Every accepted order, on any of
/// this engine's books, takes the counter's value and advances it, so
/// sequence numbers are unique and strictly increasing across the whole
/// engine.
pub struct MatchingEngine {
    pub books: Vec<OrderBook>,
    /// The engine-wide order sequence counter.
    pub next_sequence: u64,
}

impl MatchingEngine {
    /// Every book is well-formed, no two books share a symbol, and no
    /// book's sequence counter is ahead of the engine's: every sequence
    /// number ever assigned lies below `next_sequence`.
    pub open spec fn wf(&self) -> bool {
        &&& forall|i: int| 0 <= i < self.books@.len() ==> (#[trigger] self.books@[i]).wf()
        &&& forall|i: int, j: int|
            0 <= i < j < self.books@.len() ==> (#[trigger] self.books@[i]).symbol@
                != (#[trigger] self.books@[j]).symbol@
        &&& forall|i: int|
            0 <= i < self.books@.len() ==> (#[trigger] self.books@[i]).next_sequence
                <= self.next_sequence
    }

    /// Whether the engine can accept a new order against the book at `bi`:
    /// the order's id is not already resting there and the engine's and the
    /// book's counters have headroom for it.
    pub open spec fn accepts(&self, bi: int, order: Order) -> bool {
        let b = self.books@[bi];
        &&& !b.imap().contains_key(order.id)
        &&& self.next_sequence < u64::MAX
        &&& b.book_seq < u64::MAX
        &&& b.next_trade_id + entry_count(b.side_levels(order.side.spec_opposite())) + 1
            <= u64::MAX
    }

    /// Whether the engine trades the symbol.
    pub open spec fn has_symbol(&self, sym: Seq<char>) -> bool {
        exists|i: int| 0 <= i < self.books@.len() && (#[trigger] self.books@[i]).symbol@ == sym
    }

    /// A new engine with one empty book per symbol.
    pub fn new(symbols: Vec<Symbol>) -> (e: MatchingEngine)
        requires
            forall|i: int, j: int|
                0 <= i < j < symbols@.len() ==> (#[trigger] symbols@[i])@ != (#[trigger] symbols@[
                    j
                ])@,
        ensures
            e.wf(),
            e.next_sequence == 0,
            e.books@.len() == symbols@.len(),
            forall|i: int|
                0 <= i < symbols@.len() ==> (#[trigger] e.books@[i]).symbol@ == symbols@[i]@
                    && e.books@[i].next_sequence == 0 && e.books@[i].book_seq == 0
                    && e.books@[i].side_levels(Side::Buy) == Seq::<crate::model::LevelView>::empty()
                    && e.books@[i].side_levels(Side::Sell)
                    == Seq::<crate::model::LevelView>::empty(),
    {
        let mut books: Vec<OrderBook> = Vec::new();
        let n = symbols.len();
        let mut i: usize = 0;
        while i < n
            invariant
                i <= n,
                n == symbols@.len(),
                books@.len() == i,
                forall|a: int, b: int|
                    0 <= a < b < symbols@.len() ==> (#[trigger] symbols@[a])@ != (
                    #[trigger] symbols@[b])@,
                forall|k: int|
                    0 <= k < i ==> (#[trigger] books@[k]).symbol@ == symbols@[k]@
                        && books@[k].wf() && books@[k].next_sequence == 0 && books@[k].book_seq
                        == 0 && books@[k].side_levels(Side::Buy)
                        == Seq::<crate::model::LevelView>::empty() && books@[k].side_levels(
                        Side::Sell,
                    ) == Seq::<crate::model::LevelView>::empty(),
            decreases n - i,
        {
            let b = OrderBook::new(symbols[i].duplicate());
            books.push(b);
            i = i + 1;
        }
        MatchingEngine { books, next_sequence: 0 }
    }

    /// Index of the book trading the symbol.
    fn lookup(&self, sym: &Symbol) -> (r: Option<usize>)
        ensures
            r is Some <==> self.has_symbol(sym@),
            r is Some ==> 0 <= r.unwrap() < self.books@.len() && r.unwrap() == find_book(
                self.books@,
                sym@,
            ) && self.books@[r.unwrap() as int].symbol@ == sym@,
    {
        let n = self.books.len();
        let mut i: usize = 0;
        while i < n
            invariant
                i <= n,
                n == self.books@.len(),
                forall|k: int| 0 <= k < i ==> (#[trigger] self.books@[k]).symbol@ != sym@,
            decreases n - i,
        {
            if self.books[i].symbol == *sym {
                proof {
                    lemma_find_book(self.books@, sym@, i as int);
                }
                return Some(i);
            }
            i = i + 1;
        }
        proof {
            lemma_find_book(self.books@, sym@, n as int);
        }
        None
    }

    /// Routes a new order to its symbol's book and processes it there.
    ///
    /// Success is owed exactly when the symbol is traded here, the order's
    /// id is not already resting in that book, and the counters have
    /// headroom (`accepts`). The rejections: an unknown symbol is
    /// `SymbolNotFound`; a resting duplicate id is `InvalidOrder`;
    /// exhausted counters are `RateLimitExceeded`. A rejection changes
    /// nothing. On success the routed book computes exactly `spec_process`
    /// with the engine-wide sequence counter as the order's sequence, the
    /// counter advances by one, and every other book is untouched.
    pub fn process_new_order(&mut self, order: Order) -> (r: Result<
        (Order, Vec<Trade>, Vec<OrderEntry>),
        TradingError,
    >)
        requires
            old(self).wf(),
            order.status == OrderStatus::Pending,
            order.quantity > 0,
            order.filled_quantity == 0,
            order.remaining_quantity == order.quantity,
            order.fill_value == 0,
            order.order_type == OrderType::Market || order.order_type == OrderType::Limit,
            order.order_type == OrderType::Limit <==> order.price is Some,
            order.price is Some ==> order.price.unwrap() > 0,
        ensures
            final(self).wf(),
            final(self).books@.len() == old(self).books@.len(),
            r is Err ==> *final(self) == *old(self),
            r is Ok <==> old(self).has_symbol(order.symbol@) && old(self).accepts(
                find_book(old(self).books@, order.symbol@),
                order,
            ),
            r is Err ==> ({
                let bi = find_book(old(self).books@, order.symbol@);
                ||| (r->Err_0 is SymbolNotFound && !old(self).has_symbol(order.symbol@))
                ||| (r->Err_0 is InvalidOrder && old(self).has_symbol(order.symbol@) && old(
                    self,
                ).books@[bi].imap().contains_key(order.id))
                ||| (r->Err_0 is RateLimitExceeded && old(self).has_symbol(order.symbol@)
                    && !old(self).books@[bi].imap().contains_key(order.id) && !old(self).accepts(
                    bi,
                    order,
                ))
            }),
            r is Ok ==> ({
                let bi = find_book(old(self).books@, order.symbol@);
                let b0 = old(self).books@[bi];
                let bq = OrderBook { next_sequence: old(self).next_sequence, ..b0 };
                let pv = spec_process(bq, order);
                &&& old(self).has_symbol(order.symbol@)
                &&& forall|k: int|
                    0 <= k < old(self).books@.len() && k != bi
                        ==> #[trigger] final(self).books@[k] == old(self).books@[k]
                &&& final(self).books@[bi].symbol == b0.symbol
                &&& final(self).books@[bi].side_levels(Side::Buy) == pv.bids
                &&& final(self).books@[bi].side_levels(Side::Sell) == pv.asks
                &&& final(self).books@[bi].imap() == pv.index
                &&& final(self).books@[bi].next_sequence == old(self).next_sequence + 1
                &&& final(self).books@[bi].next_trade_id == pv.next_trade_id
                &&& final(self).books@[bi].book_seq == pv.book_seq
                &&& final(self).next_sequence == old(self).next_sequence + 1
                &&& r->Ok_0.0.sequence == old(self).next_sequence
                &&& r->Ok_0.0.status == pv.status
                &&& r->Ok_0.0.filled_quantity == pv.filled
                &&& r->Ok_0.0.remaining_quantity == pv.remaining
                &&& r->Ok_0.0.fill_value == pv.fill_value
                &&& r->Ok_0.0.id == order.id
                &&& r->Ok_0.0.quantities_ok()
                &&& r->Ok_0.1@.len() == pv.trades.len()
                &&& forall|i: int|
                    0 <= i < r->Ok_0.1@.len() ==> (#[trigger] r->Ok_0.1@[i]).wf()
                &&& r->Ok_0.2@ == pv.cancels
            }),
    {
        let bi = match self.lookup(&order.symbol) {
            Some(i) => i,
            None => {
                return Err(TradingError::SymbolNotFound(order.symbol.0));
            },
        };
        if self.books[bi].contains_order(order.id) {
            return Err(TradingError::InvalidOrder(order.client_order_id));
        }
        if self.next_sequence == u64::MAX {
            return Err(TradingError::RateLimitExceeded);
        }
        if !self.books[bi].can_accept(order.side) {
            proof {
                assert(self.books@[bi as int].next_sequence < u64::MAX);
                assert(!self.accepts(bi as int, order));
            }
            return Err(TradingError::RateLimitExceeded);
        }
        let ghost books0 = self.books@;
        let ghost n0 = self.next_sequence;
        let mut book = self.books.remove(bi);
        book.next_sequence = self.next_sequence;
        proof {
            let bq = OrderBook { next_sequence: n0, ..books0[bi as int] };
            assert(book == bq);
            assert(book.side_levels(Side::Buy) == books0[bi as int].side_levels(Side::Buy));
            assert(book.side_levels(Side::Sell) == books0[bi as int].side_levels(Side::Sell));
            assert(book.imap() == books0[bi as int].imap());
            assert(book.wf()) by {
                assert(levels_wf(book.side_levels(Side::Buy), Side::Buy, book.next_sequence));
                assert(levels_wf(book.side_levels(Side::Sell), Side::Sell, book.next_sequence));
            }
            assert(book.symbol@ == order.symbol@);
        }
        let out = book.process_order(order);
        let ns = book.next_sequence;
        self.books.insert(bi, book);
        self.next_sequence = ns;
        proof {
            assert(forall|k: int|
                0 <= k < self.books@.len() && k != bi as int ==> #[trigger] self.books@[k]
                    == books0[k]);
            assert(self.books@[bi as int] == book);
            assert(forall|i: int, j: int|
                0 <= i < j < self.books@.len() ==> (#[trigger] self.books@[i]).symbol@
                    != (#[trigger] self.books@[j]).symbol@) by {
                assert(forall|k: int|
                    0 <= k < self.books@.len() ==> (#[trigger] self.books@[k]).symbol@
                        == books0[k].symbol@);
            }
            assert(forall|k: int|
                0 <= k < self.books@.len() ==> (#[trigger] self.books@[k]).next_sequence
                    <= self.next_sequence);
        }
        Ok(out)
    }

    /// Routes a cancel to its symbol's book. Success is owed exactly when
    /// the symbol is traded here and the book's version counter has
    /// headroom; `Ok(true)` exactly when the order was resting there and is
    /// now removed. A rejection, and an unknown id, change nothing.
    pub fn process_cancel(&mut self, order_id: u128, symbol: &Symbol) -> (r: Result<
        bool,
        TradingError,
    >)
        requires
            old(self).wf(),
        ensures
            final(self).wf(),
            final(self).books@.len() == old(self).books@.len(),
            final(self).next_sequence == old(self).next_sequence,
            r is Err ==> *final(self) == *old(self),
            r is Ok <==> old(self).has_symbol(symbol@) && old(self).books@[find_book(
                old(self).books@,
                symbol@,
            )].book_seq < u64::MAX,
            r is Err ==> ({
                let bi = find_book(old(self).books@, symbol@);
                ||| (r->Err_0 is SymbolNotFound && !old(self).has_symbol(symbol@))
                ||| (r->Err_0 is RateLimitExceeded && old(self).has_symbol(symbol@) && old(
                    self,
                ).books@[bi].book_seq == u64::MAX)
            }),
            r is Ok ==> ({
                let bi = find_book(old(self).books@, symbol@);
                let b0 = old(self).books@[bi];
                &&& old(self).has_symbol(symbol@)
                &&& r->Ok_0 == b0.imap().contains_key(order_id)
                &&& forall|k: int|
                    0 <= k < old(self).books@.len() && k != bi
                        ==> #[trigger] final(self).books@[k] == old(self).books@[k]
                &&& final(self).books@[bi].symbol == b0.symbol
                &&& final(self).books@[bi].next_sequence == b0.next_sequence
                &&& final(self).books@[bi].next_trade_id == b0.next_trade_id
                &&& !r->Ok_0 ==> final(self).books@[bi] == b0
                &&& r->Ok_0 ==> ({
                    let loc = b0.imap()[order_id];
                    &&& final(self).books@[bi].side_levels(loc.0) == cancel_view(
                        b0.side_levels(loc.0),
                        loc.1,
                        order_id,
                    )
                    &&& final(self).books@[bi].side_levels(loc.0.spec_opposite())
                        == b0.side_levels(loc.0.spec_opposite())
                    &&& final(self).books@[bi].imap() == b0.imap().remove(order_id)
                    &&& final(self).books@[bi].book_seq == b0.book_seq + 1
                })
            }),
    {
        let bi = match self.lookup(symbol) {
            Some(i) => i,
            None => {
                return Err(TradingError::SymbolNotFound(symbol.duplicate().0));
            },
        };
        if self.books[bi].book_sequence() == u64::MAX {
            return Err(TradingError::RateLimitExceeded);
        }
        let ghost books0 = self.books@;
        let mut book = self.books.remove(bi);
        let removed = book.cancel_order(order_id);
        self.books.insert(bi, book);
        proof {
            assert(forall|k: int|
                0 <= k < self.books@.len() && k != bi as int ==> #[trigger] self.books@[k]
                    == books0[k]);
            assert(forall|i: int, j: int|
                0 <= i < j < self.books@.len() ==> (#[trigger] self.books@[i]).symbol@
                    != (#[trigger] self.books@[j]).symbol@) by {
                assert(forall|k: int|
                    0 <= k < self.books@.len() ==> (#[trigger] self.books@[k]).symbol@
                        == books0[k].symbol@);
            }
            assert(forall|k: int|
                0 <= k < self.books@.len() ==> (#[trigger] self.books@[k]).next_sequence
                    <= self.next_sequence);
        }
        Ok(removed)
    }

    /// Depth snapshot of the symbol's book, with its version.
    pub fn get_depth(&self, symbol: &Symbol, levels: usize) -> (r: Result<
        (Vec<PriceLevel>, Vec<PriceLevel>, u64),
        TradingError,
    >)
        requires
            self.wf(),
        ensures
            r is Ok <==> self.has_symbol(symbol@),
            r is Err ==> r->Err_0 is SymbolNotFound,
            r is Ok ==> ({
                let b = self.books@[find_book(self.books@, symbol@)];
                &&& r->Ok_0.0@.len() == vstd::math::min(
                    levels as int,
                    b.side_levels(Side::Buy).len() as int,
                )
                &&& r->Ok_0.1@.len() == vstd::math::min(
                    levels as int,
                    b.side_levels(Side::Sell).len() as int,
                )
                &&& forall|i: int|
                    0 <= i < r->Ok_0.0@.len() ==> {
                        let lv = b.side_levels(Side::Buy)[i];
                        &&& (#[trigger] r->Ok_0.0@[i]).price == lv.price
                        &&& r->Ok_0.0@[i].quantity == crate::level::sum_remaining(lv.entries)
                        &&& r->Ok_0.0@[i].order_count == lv.entries.len()
                    }
                &&& forall|i: int|
                    0 <= i < r->Ok_0.1@.len() ==> {
                        let lv = b.side_levels(Side::Sell)[i];
                        &&& (#[trigger] r->Ok_0.1@[i]).price == lv.price
                        &&& r->Ok_0.1@[i].quantity == crate::level::sum_remaining(lv.entries)
                        &&& r->Ok_0.1@[i].order_count == lv.entries.len()
                    }
                &&& r->Ok_0.2 == b.book_seq
            }),
    {
        match self.lookup(symbol) {
            Some(i) => {
                let (bids, asks) = self.books[i].get_depth(levels);
                Ok((bids, asks, self.books[i].book_sequence()))
            },
            None => Err(TradingError::SymbolNotFound(symbol.duplicate().0)),
        }
    }

    /// Best bid and ask of the symbol's book.
    pub fn get_bbo(&self, symbol: &Symbol) -> (r: Result<(Option<u64>, Option<u64>), TradingError>)
        requires
            self.wf(),
        ensures
            r is Ok <==> self.has_symbol(symbol@),
            r is Err ==> r->Err_0 is SymbolNotFound,
            r is Ok ==> ({
                let b = self.books@[find_book(self.books@, symbol@)];
                &&& r->Ok_0.0 == (if b.side_levels(Side::Buy).len() > 0 {
                    Some(b.side_levels(Side::Buy)[0].price)
                } else {
                    Option::<u64>::None
                })
                &&& r->Ok_0.1 == (if b.side_levels(Side::Sell).len() > 0 {
                    Some(b.side_levels(Side::Sell)[0].price)
                } else {
                    Option::<u64>::None
                })
            }),
    {
        match self.lookup(symbol) {
            Some(i) => Ok(self.books[i].get_bbo()),
            None => Err(TradingError::SymbolNotFound(symbol.duplicate().0)),
        }
    }

    /// The number of orders resting in the symbol's book, for the intake
    /// capacity ceiling.
    pub fn order_count(&self, symbol: &Symbol) -> (r: Result<usize, TradingError>)
        requires
            self.wf(),
        ensures
            r is Ok <==> self.has_symbol(symbol@),
            r is Err ==> r->Err_0 is SymbolNotFound,
            r is Ok ==> r->Ok_0 == self.books@[find_book(
                self.books@,
                symbol@,
            )].index@.len(),
    {
        match self.lookup(symbol) {
            Some(i) => Ok(self.books[i].resting_count()),
            None => Err(TradingError::SymbolNotFound(symbol.duplicate().0)),
        }
    }

    /// The symbols this engine trades.
    pub fn symbols(&self) -> (r: Vec<Symbol>)
        ensures
            r@.len() == self.books@.len(),
            forall|i: int|
                0 <= i < r@.len() ==> (#[trigger] r@[i])@ == self.books@[i].symbol@,
    {
        let mut out: Vec<Symbol> = Vec::new();
        let n = self.books.len();
        let mut i: usize = 0;
        while i < n
            invariant
                i <= n,
                n == self.books@.len(),
                out@.len() == i,
                forall|k: int|
                    0 <= k < i ==> (#[trigger] out@[k])@ == self.books@[k].symbol@,
            decreases n - i,
        {
            out.push(self.books[i].symbol.duplicate());
            i = i + 1;
        }
        out
    }
}

} // verus!
