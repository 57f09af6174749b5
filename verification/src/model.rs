//! The mathematical model of the order book and of price-time matching.
//!
//! A side of the book is a sequence of level views, best price first: bids
//! descending, asks ascending. `spec_match` is the matching algorithm itself,
//! written as a recursive function over that model; the executable book is
//! proved to compute exactly what `spec_match` says, so every property shown
//! of `spec_match` holds of the running engine.

use vstd::prelude::*;

use crate::level::{sum_remaining, find_entry, contains_entry, OrderEntry};
use crate::types::Side;

verus! {

/// One price level as the model sees it.
pub struct LevelView {
    pub price: u64,
    pub entries: Seq<OrderEntry>,
}

/// Whether `a` is a strictly better price than `b` for resting orders of the
/// given side: higher for bids, lower for asks.
pub open spec fn price_better(side: Side, a: u64, b: u64) -> bool {
    match side {
        Side::Buy => a > b,
        Side::Sell => a < b,
    }
}

/// Whether a taker with the given side and limit may trade at `price`.
/// Market orders (no limit) cross at any price.
pub open spec fn crosses(taker_side: Side, limit: Option<u64>, price: u64) -> bool {
    match limit {
        Option::None => true,
        Option::Some(l) => match taker_side {
            Side::Buy => price <= l,
            Side::Sell => price >= l,
        },
    }
}

/// Levels are keyed by strictly improving-to-worsening prices, best first,
/// each level is non-empty, its entries carry the level's price, positive
/// remaining quantities, and sequence numbers below `seq_bound`.
pub open spec fn levels_wf(l: Seq<LevelView>, side: Side, seq_bound: u64) -> bool {
    &&& forall|i: int, j: int|
        0 <= i < j < l.len() ==> price_better(side, (#[trigger] l[i]).price, (#[trigger] l[j]).price)
    &&& forall|i: int| 0 <= i < l.len() ==> (#[trigger] l[i]).entries.len() > 0
    &&& forall|i: int| 0 <= i < l.len() ==> (#[trigger] l[i]).price > 0
    &&& forall|i: int, k: int|
        0 <= i < l.len() && 0 <= k < l[i].entries.len() ==> {
            let e = #[trigger] l[i].entries[k];
            &&& e.price == l[i].price
            &&& e.remaining_quantity > 0
            &&& e.sequence < seq_bound
        }
}

/// Total number of resting entries across the levels.
pub open spec fn entry_count(l: Seq<LevelView>) -> nat
    decreases l.len(),
{
    if l.len() == 0 {
        0
    } else {
        l[0].entries.len() + entry_count(l.drop_first())
    }
}

/// Total resting quantity across the levels.
pub open spec fn total_qty(l: Seq<LevelView>) -> int
    decreases l.len(),
{
    if l.len() == 0 {
        0
    } else {
        sum_remaining(l[0].entries) + total_qty(l.drop_first())
    }
}

/// Crossable liquidity available to a taker: the total remaining quantity of
/// entries not owned by `user`, over the maximal crossable prefix of levels.
/// This is exactly the quantity a fill-or-kill pre-scan counts.
pub open spec fn avail_qty(l: Seq<LevelView>, taker_side: Side, limit: Option<u64>, user: u128)
    -> int
    decreases l.len(),
{
    if l.len() == 0 {
        0
    } else if !crosses(taker_side, limit, l[0].price) {
        0
    } else {
        other_qty(l[0].entries, user) + avail_qty(l.drop_first(), taker_side, limit, user)
    }
}

/// Total remaining quantity of the entries not owned by `user`.
pub open spec fn other_qty(s: Seq<OrderEntry>, user: u128) -> int
    decreases s.len(),
{
    if s.len() == 0 {
        0
    } else {
        (if s[0].user_id == user { 0 } else { s[0].remaining_quantity as int })
            + other_qty(s.drop_first(), user)
    }
}

/// The levels after the head entry of the best level leaves the book; the
/// level leaves with it when it empties.
pub open spec fn pop_head_view(l: Seq<LevelView>) -> Seq<LevelView> {
    if l[0].entries.len() <= 1 {
        l.drop_first()
    } else {
        l.update(0, LevelView { price: l[0].price, entries: l[0].entries.drop_first() })
    }
}

/// The levels after the head entry of the best level is reduced by `amt`.
pub open spec fn reduce_head_view(l: Seq<LevelView>, amt: u64) -> Seq<LevelView> {
    l.update(
        0,
        LevelView {
            price: l[0].price,
            entries: l[0].entries.update(
                0,
                OrderEntry {
                    remaining_quantity: (l[0].entries[0].remaining_quantity - amt) as u64,
                    ..l[0].entries[0]
                },
            ),
        },
    )
}

pub proof fn lemma_entry_count_update(l: Seq<LevelView>, i: int, lv: LevelView)
    requires
        0 <= i < l.len(),
    ensures
        entry_count(l.update(i, lv)) == entry_count(l) - l[i].entries.len() + lv.entries.len(),
    decreases l.len(),
{
    if i == 0 {
        assert(l.update(0, lv).drop_first() =~= l.drop_first());
    } else {
        assert(l.update(i, lv).drop_first() =~= l.drop_first().update(i - 1, lv));
        lemma_entry_count_update(l.drop_first(), i - 1, lv);
    }
}

/// Popping the head entry lowers the entry count by one.
pub proof fn lemma_entry_count_pop(l: Seq<LevelView>)
    requires
        l.len() > 0,
        l[0].entries.len() > 0,
    ensures
        entry_count(pop_head_view(l)) == entry_count(l) - 1,
{
    if l[0].entries.len() <= 1 {
    } else {
        lemma_entry_count_update(
            l,
            0,
            LevelView { price: l[0].price, entries: l[0].entries.drop_first() },
        );
    }
}

/// A trade as the model records it: the deterministic fields of an executed
/// fill against one maker.
pub struct TradeRec {
    pub trade_id: int,
    pub maker_order_id: u128,
    pub maker_user_id: u128,
    pub price: u64,
    pub quantity: int,
}

/// The complete outcome of matching one taker against a side of the book.
pub struct MatchResult {
    /// The opposing levels left after matching.
    pub levels: Seq<LevelView>,
    /// The location index after the makers that left the book are dropped.
    pub index: Map<u128, (Side, u64)>,
    /// The trades, in execution order.
    pub trades: Seq<TradeRec>,
    /// Makers cancelled by self-trade prevention, in order.
    pub cancels: Seq<OrderEntry>,
    /// The taker quantity still unfilled.
    pub remaining: int,
    /// The book's trade-id counter after matching.
    pub next_tid: int,
}

/// Price-time-priority matching of one taker, as spec.
///
/// Walks the opposing levels best price first and each level's queue in FIFO
/// order. A maker owned by the taker's user is removed without a trade
/// (self-trade prevention, cancel-maker policy); any other maker fills
/// `min(remaining, maker.remaining_quantity)` at the maker's level price.
/// Matching stops when the taker is filled, the side is exhausted, or the
/// best price no longer crosses the taker's limit.
pub open spec fn spec_match(
    l: Seq<LevelView>,
    index: Map<u128, (Side, u64)>,
    user: u128,
    taker_side: Side,
    limit: Option<u64>,
    remaining: int,
    tid: int,
) -> MatchResult
    decreases entry_count(l), l.len(),
    via spec_match_decreases
{
    if remaining <= 0 || l.len() == 0 || !crosses(taker_side, limit, l[0].price) {
        MatchResult {
            levels: l,
            index,
            trades: Seq::empty(),
            cancels: Seq::empty(),
            remaining,
            next_tid: tid,
        }
    } else if l[0].entries.len() == 0 {
        // Unreachable under well-formedness; kept so the function is total.
        spec_match(l.drop_first(), index, user, taker_side, limit, remaining, tid)
    } else {
        let maker = l[0].entries[0];
        if maker.user_id == user {
            let r = spec_match(
                pop_head_view(l),
                index.remove(maker.order_id),
                user,
                taker_side,
                limit,
                remaining,
                tid,
            );
            MatchResult { cancels: seq![maker] + r.cancels, ..r }
        } else if maker.remaining_quantity <= remaining {
            let t = TradeRec {
                trade_id: tid,
                maker_order_id: maker.order_id,
                maker_user_id: maker.user_id,
                price: l[0].price,
                quantity: maker.remaining_quantity as int,
            };
            let r = spec_match(
                pop_head_view(l),
                index.remove(maker.order_id),
                user,
                taker_side,
                limit,
                remaining - maker.remaining_quantity,
                tid + 1,
            );
            MatchResult { trades: seq![t] + r.trades, ..r }
        } else {
            let t = TradeRec {
                trade_id: tid,
                maker_order_id: maker.order_id,
                maker_user_id: maker.user_id,
                price: l[0].price,
                quantity: remaining,
            };
            MatchResult {
                levels: reduce_head_view(l, remaining as u64),
                index,
                trades: seq![t],
                cancels: Seq::empty(),
                remaining: 0,
                next_tid: tid + 1,
            }
        }
    }
}

#[via_fn]
proof fn spec_match_decreases(
    l: Seq<LevelView>,
    index: Map<u128, (Side, u64)>,
    user: u128,
    taker_side: Side,
    limit: Option<u64>,
    remaining: int,
    tid: int,
) {
    if remaining <= 0 || l.len() == 0 || !crosses(taker_side, limit, l[0].price) {
    } else if l[0].entries.len() == 0 {
    } else {
        lemma_entry_count_pop(l);
    }
}

/// Total quantity over a run of trades.
pub open spec fn trades_qty(s: Seq<TradeRec>) -> int
    decreases s.len(),
{
    if s.len() == 0 {
        0
    } else {
        s[0].quantity + trades_qty(s.drop_first())
    }
}

/// Total quote value over a run of trades.
pub open spec fn trades_value(s: Seq<TradeRec>) -> int
    decreases s.len(),
{
    if s.len() == 0 {
        0
    } else {
        s[0].price * s[0].quantity + trades_value(s.drop_first())
    }
}

/// Bookkeeping facts of matching: what is filled is what the trades carry;
/// trade ids run consecutively from the counter; every trade is a positive
/// fill against another user's maker at a crossable price; every maker
/// cancelled on the way belongs to the taker's user.
pub proof fn lemma_match_accounting(
    l: Seq<LevelView>,
    index: Map<u128, (Side, u64)>,
    user: u128,
    taker_side: Side,
    limit: Option<u64>,
    remaining: int,
    tid: int,
)
    requires
        remaining >= 0,
        forall|i: int, k: int|
            0 <= i < l.len() && 0 <= k < l[i].entries.len()
                ==> (#[trigger] l[i].entries[k]).remaining_quantity > 0,
        forall|i: int| 0 <= i < l.len() ==> (#[trigger] l[i]).price > 0,
    ensures
        ({
            let r = spec_match(l, index, user, taker_side, limit, remaining, tid);
            &&& 0 <= r.remaining <= remaining
            &&& trades_qty(r.trades) == remaining - r.remaining
            &&& r.next_tid == tid + r.trades.len()
            &&& forall|i: int|
                0 <= i < r.trades.len() ==> {
                    let t = #[trigger] r.trades[i];
                    &&& t.trade_id == tid + i
                    &&& t.quantity > 0
                    &&& t.price > 0
                    &&& t.maker_user_id != user
                    &&& crosses(taker_side, limit, t.price)
                }
            &&& forall|i: int|
                0 <= i < r.cancels.len() ==> (#[trigger] r.cancels[i]).user_id == user
            &&& forall|id: u128|
                #[trigger] r.index.contains_key(id) ==> index.contains_key(id) && r.index[id]
                    == index[id]
        }),
    decreases entry_count(l), l.len(),
{
    let r = spec_match(l, index, user, taker_side, limit, remaining, tid);
    if remaining <= 0 || l.len() == 0 || !crosses(taker_side, limit, l[0].price) {
    } else if l[0].entries.len() == 0 {
        assert(forall|i: int| 0 <= i < l.drop_first().len() ==> #[trigger] l.drop_first()[i] == l[
            i + 1
        ]);
        lemma_match_accounting(l.drop_first(), index, user, taker_side, limit, remaining, tid);
    } else {
        let maker = l[0].entries[0];
        lemma_entry_count_pop(l);
        let pl = pop_head_view(l);
        assert((forall|i: int, k: int|
            0 <= i < pl.len() && 0 <= k < pl[i].entries.len()
                ==> (#[trigger] pl[i].entries[k]).remaining_quantity > 0) && (forall|i: int|
            0 <= i < pl.len() ==> (#[trigger] pl[i]).price > 0)) by {
            if l[0].entries.len() <= 1 {
                assert(forall|i: int| 0 <= i < pl.len() ==> #[trigger] pl[i] == l[i + 1]);
            } else {
                assert(forall|i: int|
                    0 <= i < pl.len() && i != 0 ==> #[trigger] pl[i] == l[i]);
                assert(pl[0].price == l[0].price);
                assert(forall|k: int|
                    0 <= k < pl[0].entries.len() ==> #[trigger] pl[0].entries[k]
                        == l[0].entries[k + 1]);
            }
        }
        if maker.user_id == user {
            let r2 = spec_match(
                pop_head_view(l),
                index.remove(maker.order_id),
                user,
                taker_side,
                limit,
                remaining,
                tid,
            );
            lemma_match_accounting(
                pop_head_view(l),
                index.remove(maker.order_id),
                user,
                taker_side,
                limit,
                remaining,
                tid,
            );
            assert(r.cancels == seq![maker] + r2.cancels);
            assert(forall|i: int|
                1 <= i < r.cancels.len() ==> #[trigger] r.cancels[i] == r2.cancels[i - 1]);
        } else if maker.remaining_quantity <= remaining {
            let t = TradeRec {
                trade_id: tid,
                maker_order_id: maker.order_id,
                maker_user_id: maker.user_id,
                price: l[0].price,
                quantity: maker.remaining_quantity as int,
            };
            let r2 = spec_match(
                pop_head_view(l),
                index.remove(maker.order_id),
                user,
                taker_side,
                limit,
                remaining - maker.remaining_quantity,
                tid + 1,
            );
            lemma_match_accounting(
                pop_head_view(l),
                index.remove(maker.order_id),
                user,
                taker_side,
                limit,
                remaining - maker.remaining_quantity,
                tid + 1,
            );
            assert(r.trades == seq![t] + r2.trades);
            assert((seq![t] + r2.trades).drop_first() =~= r2.trades);
            assert((seq![t] + r2.trades)[0] == t);
            assert(trades_qty(r.trades) == t.quantity + trades_qty(r2.trades));
            assert(forall|i: int|
                1 <= i < r.trades.len() ==> #[trigger] r.trades[i] == r2.trades[i - 1]);
        } else {
            let t = TradeRec {
                trade_id: tid,
                maker_order_id: maker.order_id,
                maker_user_id: maker.user_id,
                price: l[0].price,
                quantity: remaining,
            };
            assert(r.trades == seq![t]);
            assert(r.trades.len() == 1);
            assert(r.trades[0] == t);
            assert(r.trades.drop_first() =~= Seq::<TradeRec>::empty());
            assert(trades_qty(Seq::<TradeRec>::empty()) == 0);
            assert(trades_qty(r.trades) == r.trades[0].quantity + trades_qty(
                r.trades.drop_first(),
            ));
            assert(trades_qty(r.trades) == remaining);
        }
    }
}

/// Prefix sums of trade quantity and value, for the loops that walk a trade
/// run left to right.
pub proof fn lemma_trades_prefix(s: Seq<TradeRec>, i: int)
    requires
        0 <= i < s.len(),
    ensures
        trades_qty(s.take(i + 1)) == trades_qty(s.take(i)) + s[i].quantity,
        trades_value(s.take(i + 1)) == trades_value(s.take(i)) + s[i].price * s[i].quantity,
    decreases s.len() + i,
{
    if i == 0 {
        assert(s.take(1).drop_first() =~= Seq::<TradeRec>::empty());
        assert(s.take(0) =~= Seq::<TradeRec>::empty());
        assert(s.take(1)[0] == s[0]);
    } else {
        let t = s.drop_first();
        assert(s.take(i + 1).drop_first() =~= t.take(i));
        assert(s.take(i).drop_first() =~= t.take(i - 1));
        assert(t[i - 1] == s[i]);
        lemma_trades_prefix(t, i - 1);
        assert(s.take(i + 1)[0] == s[0]);
        assert(s.take(i)[0] == s[0]);
    }
}

/// Quantities and values over a trade run are non-negative, and the value
/// is bounded by the largest possible price times the total quantity.
pub proof fn lemma_trades_bounds(s: Seq<TradeRec>)
    requires
        forall|i: int| 0 <= i < s.len() ==> (#[trigger] s[i]).quantity >= 0,
    ensures
        trades_qty(s) >= 0,
        0 <= trades_value(s) <= (u64::MAX as int) * trades_qty(s),
    decreases s.len(),
{
    if s.len() == 0 {
    } else {
        let t = s.drop_first();
        assert(forall|i: int| 0 <= i < t.len() ==> t[i] == s[i + 1]);
        lemma_trades_bounds(t);
        assert(s[0].price * s[0].quantity <= (u64::MAX as int) * s[0].quantity)
            by (nonlinear_arith)
            requires 0 <= s[0].price <= u64::MAX as int, s[0].quantity >= 0;
        assert((u64::MAX as int) * s[0].quantity + (u64::MAX as int) * trades_qty(t)
            == (u64::MAX as int) * trades_qty(s)) by (nonlinear_arith)
            requires trades_qty(s) == s[0].quantity + trades_qty(t);
        assert(s[0].price * s[0].quantity >= 0) by (nonlinear_arith)
            requires s[0].price >= 0, s[0].quantity >= 0;
    }
}

/// Non-negativity and bound of the liquidity a user does not own.
pub proof fn lemma_other_qty_bounds(s: Seq<OrderEntry>, user: u128)
    ensures
        0 <= other_qty(s, user) <= sum_remaining(s) || exists|i: int|
            0 <= i < s.len() && !((#[trigger] s[i]).remaining_quantity >= 0),
    decreases s.len(),
{
    if s.len() == 0 {
    } else {
        lemma_other_qty_bounds(s.drop_first(), user);
    }
}

/// Crossable other-user liquidity is non-negative and at most the entry
/// count times the largest possible quantity.
pub proof fn lemma_avail_bounds(l: Seq<LevelView>, taker_side: Side, limit: Option<u64>, user: u128)
    ensures
        0 <= avail_qty(l, taker_side, limit, user) <= entry_count(l) * (u64::MAX as int),
    decreases l.len(),
{
    if l.len() == 0 {
    } else {
        lemma_avail_bounds(l.drop_first(), taker_side, limit, user);
        lemma_other_qty_bounds(l[0].entries, user);
        crate::level::lemma_sum_bounds(l[0].entries);
        assert(l[0].entries.len() * (u64::MAX as int) + entry_count(l.drop_first()) * (
        u64::MAX as int) == entry_count(l) * (u64::MAX as int)) by (nonlinear_arith)
            requires entry_count(l) == l[0].entries.len() + entry_count(l.drop_first());
    }
}

/// A trade run splits at any point into its prefix and suffix sums.
pub proof fn lemma_trades_qty_split(s: Seq<TradeRec>, i: int)
    requires
        0 <= i <= s.len(),
    ensures
        trades_qty(s) == trades_qty(s.take(i)) + trades_qty(s.skip(i)),
    decreases i,
{
    if i == 0 {
        assert(s.take(0) =~= Seq::<TradeRec>::empty());
        assert(s.skip(0) =~= s);
    } else {
        lemma_trades_prefix(s, i - 1);
        lemma_trades_qty_split(s, i - 1);
        assert(s.skip(i - 1).drop_first() =~= s.skip(i));
        assert(s.skip(i - 1)[0] == s[i - 1]);
    }
}

/// With positive quantities throughout, the suffix sum is non-negative, so
/// every prefix sum is bounded by the whole.
pub proof fn lemma_trades_qty_nonneg(s: Seq<TradeRec>)
    requires
        forall|i: int| 0 <= i < s.len() ==> (#[trigger] s[i]).quantity >= 0,
    ensures
        trades_qty(s) >= 0,
    decreases s.len(),
{
    if s.len() == 0 {
    } else {
        assert(forall|i: int| 0 <= i < s.drop_first().len() ==> #[trigger] s.drop_first()[i] == s[
            i + 1
        ]);
        lemma_trades_qty_nonneg(s.drop_first());
    }
}

/// With positive prices and quantities, a trade run's value is zero exactly
/// when the run is empty.
pub proof fn lemma_trades_value_zero(s: Seq<TradeRec>)
    requires
        forall|i: int|
            0 <= i < s.len() ==> (#[trigger] s[i]).quantity > 0 && s[i].price > 0,
    ensures
        trades_value(s) == 0 <==> s.len() == 0,
        trades_qty(s) == 0 <==> s.len() == 0,
    decreases s.len(),
{
    if s.len() == 0 {
    } else {
        assert(forall|i: int| 0 <= i < s.drop_first().len() ==> #[trigger] s.drop_first()[i] == s[
            i + 1
        ]);
        lemma_trades_value_zero(s.drop_first());
        lemma_trades_bounds(s.drop_first());
        lemma_trades_qty_nonneg(s.drop_first());
        assert(s[0].price * s[0].quantity > 0) by (nonlinear_arith)
            requires s[0].price > 0, s[0].quantity > 0;
    }
}

/// The levels after a new entry rests: appended to the tail of its price's
/// level, or placed in a fresh level at its sorted position.
pub open spec fn rest_insert_view(l: Seq<LevelView>, e: OrderEntry, side: Side)
    -> Seq<LevelView>
    decreases l.len(),
{
    if l.len() == 0 {
        seq![LevelView { price: e.price, entries: seq![e] }]
    } else if l[0].price == e.price {
        l.update(0, LevelView { price: l[0].price, entries: l[0].entries.push(e) })
    } else if price_better(side, l[0].price, e.price) {
        seq![l[0]] + rest_insert_view(l.drop_first(), e, side)
    } else {
        seq![LevelView { price: e.price, entries: seq![e] }] + l
    }
}

/// The levels after the entry with order id `id` leaves the level priced
/// `price`; the level leaves with it when it empties. Levels without that
/// price, and levels whose queue does not hold the id, are unchanged.
pub open spec fn cancel_view(l: Seq<LevelView>, price: u64, id: u128) -> Seq<LevelView>
    decreases l.len(),
{
    if l.len() == 0 {
        l
    } else if l[0].price == price {
        if contains_entry(l[0].entries, id) {
            let rest = l[0].entries.remove(find_entry(l[0].entries, id));
            if rest.len() == 0 {
                l.drop_first()
            } else {
                l.update(0, LevelView { price: l[0].price, entries: rest })
            }
        } else {
            l
        }
    } else {
        seq![l[0]] + cancel_view(l.drop_first(), price, id)
    }
}

} // verus!
