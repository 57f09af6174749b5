//! The engine's global laws, proved once over the model so that they hold
//! of every execution of the verified book.

use vstd::prelude::*;

use crate::engine::MatchingEngine;
use crate::level::{contains_entry, sum_remaining, Level, OrderEntry};
use crate::model::{
    entry_count, lemma_entry_count_pop, pop_head_view, reduce_head_view, spec_match, total_qty,
    LevelView,
};
use crate::orderbook::{ladder_view, spec_process, OrderBook};
use crate::types::{Order, Side};

verus! {

/// Sum of the cached per-level totals of a ladder.
pub open spec fn cached_total(s: Seq<Level>) -> int
    decreases s.len(),
{
    if s.len() == 0 {
        0
    } else {
        s[0].total_quantity + cached_total(s.drop_first())
    }
}

proof fn lemma_cached_total(s: Seq<Level>)
    requires
        forall|i: int| 0 <= i < s.len() ==> (#[trigger] s[i]).wf(),
    ensures
        cached_total(s) == total_qty(ladder_view(s)),
    decreases s.len(),
{
    crate::orderbook::lemma_ladder_view_facts(s);
    if s.len() == 0 {
        assert(ladder_view(s).len() == 0);
    } else {
        let t = s.drop_first();
        assert(forall|i: int| 0 <= i < t.len() ==> t[i] == s[i + 1]);
        lemma_cached_total(t);
        crate::orderbook::lemma_ladder_view_facts(t);
        assert(ladder_view(s).drop_first() =~= ladder_view(t));
        assert(ladder_view(s)[0].entries == s[0]@);
        assert(s[0].total_quantity == sum_remaining(ladder_view(s)[0].entries));
    }
}

/// Quantity conservation: in a well-formed book, the sum of the cached
/// `total_quantity` of every price level on both sides equals the sum of
/// `remaining_quantity` over all resting entries.
pub proof fn lemma_quantity_conservation(b: OrderBook)
    requires
        b.wf(),
    ensures
        cached_total(b.bids@) + cached_total(b.asks@) == total_qty(b.side_levels(Side::Buy))
            + total_qty(b.side_levels(Side::Sell)),
{
    lemma_cached_total(b.bids@);
    lemma_cached_total(b.asks@);
}

/// Sequence assignment is strictly monotonic and never reused: an order
/// processed when the counter stands where a previous processing left it
/// gets a strictly larger sequence number than the previous order did, and
/// the book version never decreases.
pub proof fn lemma_sequence_monotonic(b1: OrderBook, o1: Order, b2: OrderBook, o2: Order)
    requires
        b2.next_sequence == spec_process(b1, o1).next_sequence,
    ensures
        spec_process(b1, o1).sequence == b1.next_sequence,
        spec_process(b1, o1).next_sequence == b1.next_sequence + 1,
        spec_process(b2, o2).sequence > spec_process(b1, o1).sequence,
        spec_process(b1, o1).book_seq >= b1.book_seq,
{
}

/// Self-trade prevention (law): no trade of a matching pass names the
/// taker's own user as maker, for any book side and any taker.
pub proof fn lemma_no_self_trade(
    l: Seq<LevelView>,
    index: Map<u128, (Side, u64)>,
    user: u128,
    taker_side: Side,
    limit: Option<u64>,
    remaining: int,
    tid: int,
)
    requires
        remaining >= 0,
        forall|i: int, k: int|
            0 <= i < l.len() && 0 <= k < l[i].entries.len()
                ==> (#[trigger] l[i].entries[k]).remaining_quantity > 0,
        forall|i: int| 0 <= i < l.len() ==> (#[trigger] l[i]).price > 0,
    ensures
        ({
            let r = spec_match(l, index, user, taker_side, limit, remaining, tid);
            forall|t: int|
                0 <= t < r.trades.len() ==> (#[trigger] r.trades[t]).maker_user_id != user
        }),
{
    crate::model::lemma_match_accounting(l, index, user, taker_side, limit, remaining, tid);
}

/// Every sequence number resting anywhere in a well-formed engine lies
/// below the engine's sequence counter: the sequence the next accepted
/// order takes is fresh across all of the engine's books.
pub proof fn lemma_engine_sequences_fresh(e: MatchingEngine)
    requires
        e.wf(),
    ensures
        forall|bi: int, sd: Side, li: int, k: int|
            0 <= bi < e.books@.len() && 0 <= li < e.books@[bi].side_levels(sd).len() && 0 <= k
                < e.books@[bi].side_levels(sd)[li].entries.len()
                ==> (#[trigger] e.books@[bi].side_levels(sd)[li].entries[k]).sequence
                < e.next_sequence,
{
    assert forall|bi: int, sd: Side, li: int, k: int|
        0 <= bi < e.books@.len() && 0 <= li < e.books@[bi].side_levels(sd).len() && 0 <= k
            < e.books@[bi].side_levels(sd)[li].entries.len()
        implies (#[trigger] e.books@[bi].side_levels(sd)[li].entries[k]).sequence
        < e.next_sequence by {
        let b = e.books@[bi];
        assert(b.wf());
        assert(b.next_sequence <= e.next_sequence);
        assert(b.side_levels(sd)[li].entries[k].sequence < b.next_sequence);
    }
}

/// Engine-wide sequence uniqueness: an order accepted now takes the
/// engine counter's value, and any order accepted after it — on the same
/// book or a different one — finds the counter strictly larger, so the two
/// sequence numbers always differ.
pub proof fn lemma_engine_sequence_unique(
    e0: MatchingEngine,
    s1: u64,
    e1: MatchingEngine,
    s2: u64,
)
    requires
        s1 == e0.next_sequence,
        e1.next_sequence > e0.next_sequence,
        s2 == e1.next_sequence,
    ensures
        s1 < s2,
        s1 != s2,
{
}

/// Processing reads only the book's observable state: two books with the
/// same ladders, location index and counters process any order to the same
/// outcome. Together with `process_order`'s exact contract this makes the
/// book state after any command stream a function of the stream alone, so
/// replaying the stream from an empty book rebuilds the same state,
/// operation by operation.
pub proof fn lemma_process_extensional(b1: OrderBook, b2: OrderBook, o: Order)
    requires
        b1.side_levels(Side::Buy) == b2.side_levels(Side::Buy),
        b1.side_levels(Side::Sell) == b2.side_levels(Side::Sell),
        b1.imap() == b2.imap(),
        b1.next_sequence == b2.next_sequence,
        b1.next_trade_id == b2.next_trade_id,
        b1.book_seq == b2.book_seq,
    ensures
        spec_process(b1, o) == spec_process(b2, o),
{
    assert(b1.side_levels(o.side.spec_opposite()) == b2.side_levels(o.side.spec_opposite()));
    assert(b1.side_levels(o.side) == b2.side_levels(o.side));
}

/// Cancelling a known order exactly once removes it: after a successful
/// cancel the id is gone from the location index, so a second cancel of the
/// same id reports failure and, by the cancel contract, changes nothing.
pub proof fn lemma_cancel_exactly_once(b1: OrderBook, b2: OrderBook, id: u128)
    requires
        b1.imap().contains_key(id),
        b2.imap() == b1.imap().remove(id),
    ensures
        !b2.imap().contains_key(id),
{
}

/// Whether any level of the ladder holds an entry with this order id.
pub open spec fn ladder_has_id(l: Seq<LevelView>, id: u128) -> bool {
    exists|i: int| 0 <= i < l.len() && contains_entry((#[trigger] l[i]).entries, id)
}

/// Matching only consumes: every order id resting afterwards was resting
/// before, and every trade's maker id was resting before.
proof fn lemma_match_ids_from_book(
    l: Seq<LevelView>,
    index: Map<u128, (Side, u64)>,
    user: u128,
    taker_side: Side,
    limit: Option<u64>,
    remaining: int,
    tid: int,
)
    ensures
        ({
            let r = spec_match(l, index, user, taker_side, limit, remaining, tid);
            &&& forall|id: u128| #[trigger] ladder_has_id(r.levels, id) ==> ladder_has_id(l, id)
            &&& forall|t: int|
                0 <= t < r.trades.len() ==> ladder_has_id(
                    l,
                    (#[trigger] r.trades[t]).maker_order_id,
                )
        }),
    decreases entry_count(l), l.len(),
{
    let r = spec_match(l, index, user, taker_side, limit, remaining, tid);
    if remaining <= 0 || l.len() == 0 || !crate::model::crosses(taker_side, limit, l[0].price) {
    } else if l[0].entries.len() == 0 {
        lemma_match_ids_from_book(l.drop_first(), index, user, taker_side, limit, remaining, tid);
        assert forall|id: u128| #[trigger] ladder_has_id(l.drop_first(), id) implies ladder_has_id(
            l,
            id,
        ) by {
            let i = choose|i: int|
                0 <= i < l.drop_first().len() && contains_entry(
                    (#[trigger] l.drop_first()[i]).entries,
                    id,
                );
            assert(l[i + 1] == l.drop_first()[i]);
        }
        let rd = spec_match(l.drop_first(), index, user, taker_side, limit, remaining, tid);
        assert(r == rd);
        assert forall|id: u128| #[trigger] ladder_has_id(r.levels, id) implies ladder_has_id(
            l,
            id,
        ) by {
            assert(ladder_has_id(rd.levels, id));
            assert(ladder_has_id(l.drop_first(), id));
        }
        assert forall|t: int| 0 <= t < r.trades.len() implies ladder_has_id(
            l,
            (#[trigger] r.trades[t]).maker_order_id,
        ) by {
            assert(ladder_has_id(l.drop_first(), rd.trades[t].maker_order_id));
        }
    } else {
        let maker = l[0].entries[0];
        let pl = pop_head_view(l);
        assert forall|id: u128| #[trigger] ladder_has_id(pl, id) implies ladder_has_id(l, id) by {
            let i = choose|i: int|
                0 <= i < pl.len() && contains_entry((#[trigger] pl[i]).entries, id);
            let k = choose|k: int| 0 <= k < pl[i].entries.len() && pl[i].entries[k].order_id == id;
            if l[0].entries.len() <= 1 {
                assert(pl[i] == l[i + 1]);
                assert(contains_entry(l[i + 1].entries, id));
            } else {
                if i == 0 {
                    assert(pl[0].entries[k] == l[0].entries[k + 1]);
                    assert(contains_entry(l[0].entries, id));
                } else {
                    assert(pl[i] == l[i]);
                    assert(contains_entry(l[i].entries, id));
                }
            }
        }
        if maker.user_id == user || maker.remaining_quantity <= remaining {
            let rem2: int = if maker.user_id == user {
                remaining
            } else {
                remaining - maker.remaining_quantity
            };
            let tid2: int = if maker.user_id == user {
                tid
            } else {
                tid + 1
            };
            lemma_entry_count_pop(l);
            lemma_match_ids_from_book(
                pl,
                index.remove(maker.order_id),
                user,
                taker_side,
                limit,
                rem2,
                tid2,
            );
            let r2 = spec_match(pl, index.remove(maker.order_id), user, taker_side, limit, rem2, tid2);
            assert(contains_entry(l[0].entries, maker.order_id));
            assert(ladder_has_id(l, maker.order_id));
            assert(r.levels == r2.levels);
            assert forall|id: u128| #[trigger] ladder_has_id(r.levels, id) implies ladder_has_id(
                l,
                id,
            ) by {
                assert(ladder_has_id(r2.levels, id));
                assert(ladder_has_id(pl, id));
            }
            if maker.user_id == user {
                assert(r.trades == r2.trades);
                assert forall|t: int| 0 <= t < r.trades.len() implies ladder_has_id(
                    l,
                    (#[trigger] r.trades[t]).maker_order_id,
                ) by {
                    assert(ladder_has_id(pl, r2.trades[t].maker_order_id));
                }
            } else {
                assert(r.trades[0].maker_order_id == maker.order_id);
                assert(forall|t: int|
                    1 <= t < r.trades.len() ==> #[trigger] r.trades[t] == r2.trades[t - 1]);
                assert forall|t: int| 0 <= t < r.trades.len() implies ladder_has_id(
                    l,
                    (#[trigger] r.trades[t]).maker_order_id,
                ) by {
                    if t >= 1 {
                        assert(ladder_has_id(pl, r2.trades[t - 1].maker_order_id));
                    }
                }
            }
        } else {
            let rl = reduce_head_view(l, remaining as u64);
            assert forall|id: u128| #[trigger] ladder_has_id(rl, id) implies ladder_has_id(
                l,
                id,
            ) by {
                let i = choose|i: int|
                    0 <= i < rl.len() && contains_entry((#[trigger] rl[i]).entries, id);
                let k = choose|k: int|
                    0 <= k < rl[i].entries.len() && rl[i].entries[k].order_id == id;
                if i == 0 {
                    assert(rl[0].entries[k].order_id == l[0].entries[k].order_id);
                    assert(contains_entry(l[0].entries, id));
                } else {
                    assert(rl[i] == l[i]);
                }
            }
            assert(contains_entry(l[0].entries, maker.order_id));
            assert(r.trades[0].maker_order_id == maker.order_id);
            assert(r.levels == rl);
            assert forall|id: u128| #[trigger] ladder_has_id(r.levels, id) implies ladder_has_id(
                l,
                id,
            ) by {
                assert(ladder_has_id(rl, id));
            }
        }
    }
}

/// Price-time priority within a level: of two resting orders at the same
/// price, the earlier-queued one fills first. If any trade of this matching
/// names the later one as maker, the earlier one has left the book
/// entirely; and every trade against the earlier one comes before every
/// trade against the later one.
pub proof fn lemma_price_time_priority(
    l: Seq<LevelView>,
    index: Map<u128, (Side, u64)>,
    user: u128,
    taker_side: Side,
    limit: Option<u64>,
    remaining: int,
    tid: int,
    i: int,
    k1: int,
    k2: int,
)
    requires
        crate::orderbook::ladder_distinct(l),
        0 <= i < l.len(),
        0 <= k1 < k2 < l[i].entries.len(),
    ensures
        ({
            let r = spec_match(l, index, user, taker_side, limit, remaining, tid);
            let e1 = l[i].entries[k1];
            let e2 = l[i].entries[k2];
            &&& (exists|t: int|
                0 <= t < r.trades.len() && (#[trigger] r.trades[t]).maker_order_id
                    == e2.order_id) ==> !ladder_has_id(r.levels, e1.order_id)
            &&& forall|t1: int, t2: int|
                0 <= t1 < r.trades.len() && 0 <= t2 < r.trades.len()
                    && (#[trigger] r.trades[t1]).maker_order_id == e1.order_id
                    && (#[trigger] r.trades[t2]).maker_order_id == e2.order_id ==> t1 < t2
        }),
    decreases entry_count(l), l.len(),
{
    let r = spec_match(l, index, user, taker_side, limit, remaining, tid);
    let e1 = l[i].entries[k1];
    let e2 = l[i].entries[k2];
    assert(e1.order_id != e2.order_id);
    if remaining <= 0 || l.len() == 0 || !crate::model::crosses(taker_side, limit, l[0].price) {
    } else if l[0].entries.len() == 0 {
        assert(i >= 1);
        let t = l.drop_first();
        assert(forall|a: int| 0 <= a < t.len() ==> t[a] == l[a + 1]);
        assert(crate::orderbook::ladder_distinct(t));
        lemma_price_time_priority(
            t,
            index,
            user,
            taker_side,
            limit,
            remaining,
            tid,
            i - 1,
            k1,
            k2,
        );
    } else {
        let maker = l[0].entries[0];
        let pl = pop_head_view(l);
        let popped = maker.user_id == user || maker.remaining_quantity <= remaining;
        if popped {
            let rem2: int = if maker.user_id == user {
                remaining
            } else {
                remaining - maker.remaining_quantity
            };
            let tid2: int = if maker.user_id == user {
                tid
            } else {
                tid + 1
            };
            let r2 = spec_match(pl, index.remove(maker.order_id), user, taker_side, limit, rem2, tid2);
            lemma_match_ids_from_book(
                pl,
                index.remove(maker.order_id),
                user,
                taker_side,
                limit,
                rem2,
                tid2,
            );
            assert(crate::orderbook::ladder_distinct(pl)) by {
                lemma_pop_distinct(l);
            }
            assert(!ladder_has_id(pl, maker.order_id)) by {
                if ladder_has_id(pl, maker.order_id) {
                    let a = choose|a: int|
                        0 <= a < pl.len() && contains_entry(
                            (#[trigger] pl[a]).entries,
                            maker.order_id,
                        );
                    let c = choose|c: int|
                        0 <= c < pl[a].entries.len() && pl[a].entries[c].order_id
                            == maker.order_id;
                    if l[0].entries.len() <= 1 {
                        assert(pl[a] == l[a + 1]);
                        assert(l[a + 1].entries[c].order_id == l[0].entries[0].order_id);
                    } else if a == 0 {
                        assert(pl[0].entries[c] == l[0].entries[c + 1]);
                    } else {
                        assert(pl[a] == l[a]);
                        assert(l[a].entries[c].order_id == l[0].entries[0].order_id);
                    }
                }
            }
            if i == 0 && k1 == 0 {
                // The earlier order is the head maker: it leaves the book
                // now, with its only possible trade first.
                assert(maker == e1);
                assert(!ladder_has_id(r.levels, e1.order_id)) by {
                    if ladder_has_id(r2.levels, e1.order_id) {
                        assert(ladder_has_id(pl, e1.order_id));
                    }
                }
                assert forall|t1: int, t2: int|
                    0 <= t1 < r.trades.len() && 0 <= t2 < r.trades.len()
                        && (#[trigger] r.trades[t1]).maker_order_id == e1.order_id
                        && (#[trigger] r.trades[t2]).maker_order_id == e2.order_id implies t1
                    < t2 by {
                    if maker.user_id == user {
                        assert(r.trades[t1] == r2.trades[t1]);
                        assert(ladder_has_id(pl, e1.order_id));
                        assert(false);
                    } else {
                        if t1 >= 1 {
                            assert(r.trades[t1] == r2.trades[t1 - 1]);
                            assert(ladder_has_id(pl, e1.order_id));
                            assert(false);
                        }
                        assert(t1 == 0);
                        if t2 == 0 {
                            assert(r.trades[0].maker_order_id == maker.order_id);
                            assert(false);
                        }
                    }
                }
            } else {
                // Both orders survive the head step; recurse at their new
                // positions.
                let i2: int = if l[0].entries.len() <= 1 {
                    i - 1
                } else {
                    i
                };
                let kk1: int = if i == 0 {
                    k1 - 1
                } else {
                    k1
                };
                let kk2: int = if i == 0 {
                    k2 - 1
                } else {
                    k2
                };
                assert(i == 0 ==> l[0].entries.len() > 1);
                assert(0 <= i2 < pl.len() && 0 <= kk1 < kk2 < pl[i2].entries.len() && pl[
                    i2
                ].entries[kk1] == e1 && pl[i2].entries[kk2] == e2) by {
                    if l[0].entries.len() <= 1 {
                        assert(i >= 1);
                        assert(pl[i - 1] == l[i]);
                    } else if i == 0 {
                        assert(forall|c: int|
                            0 <= c < pl[0].entries.len() ==> #[trigger] pl[0].entries[c]
                                == l[0].entries[c + 1]);
                    } else {
                        assert(pl[i] == l[i]);
                    }
                }
                lemma_pop_distinct(l);
                lemma_entry_count_pop(l);
                lemma_price_time_priority(
                    pl,
                    index.remove(maker.order_id),
                    user,
                    taker_side,
                    limit,
                    rem2,
                    tid2,
                    i2,
                    kk1,
                    kk2,
                );
                assert(maker.order_id != e1.order_id && maker.order_id != e2.order_id);
                if maker.user_id == user {
                    assert(r.trades == r2.trades);
                    assert(r.levels == r2.levels);
                } else {
                    assert(forall|t: int|
                        1 <= t < r.trades.len() ==> #[trigger] r.trades[t] == r2.trades[t - 1]);
                    assert(r.trades[0].maker_order_id == maker.order_id);
                    if exists|t: int|
                        0 <= t < r.trades.len() && (#[trigger] r.trades[t]).maker_order_id
                            == e2.order_id {
                        let t = choose|t: int|
                            0 <= t < r.trades.len() && (#[trigger] r.trades[t]).maker_order_id
                                == e2.order_id;
                        assert(t >= 1);
                        assert(r2.trades[t - 1].maker_order_id == e2.order_id);
                        assert(!ladder_has_id(r2.levels, e1.order_id));
                    }
                }
            }
        } else {
            // Partial fill of the head maker ends the matching; neither of
            // the two queued orders can be that maker's successor in trades.
            assert(r.trades.len() == 1);
            assert(r.trades[0].maker_order_id == maker.order_id);
            assert forall|t1: int, t2: int|
                0 <= t1 < r.trades.len() && 0 <= t2 < r.trades.len()
                    && (#[trigger] r.trades[t1]).maker_order_id == e1.order_id
                    && (#[trigger] r.trades[t2]).maker_order_id == e2.order_id implies t1
                < t2 by {
                assert(t1 == 0 && t2 == 0);
                assert(e1.order_id == maker.order_id && e2.order_id == maker.order_id);
            }
            assert(!(exists|t: int|
                0 <= t < r.trades.len() && (#[trigger] r.trades[t]).maker_order_id
                    == e2.order_id)) by {
                if r.trades[0].maker_order_id == e2.order_id {
                    assert(maker.order_id == e2.order_id);
                    assert(i == 0 && k2 == 0);
                }
            }
        }
    }
}

/// One book-visible event of a matching pass, as a replay consumer applies
/// it: a fill against a named maker, or the removal of a named maker by
/// self-trade prevention.
pub enum BookEvent {
    Fill { order_id: u128, quantity: int },
    Removed { order_id: u128 },
}

/// Removes the entry with this id from the level holding it, dropping the
/// level when it empties; without the id, the ladder is unchanged.
pub open spec fn strike_id(l: Seq<LevelView>, id: u128) -> Seq<LevelView>
    decreases l.len(),
{
    if l.len() == 0 {
        l
    } else if contains_entry(l[0].entries, id) {
        let rest = l[0].entries.remove(crate::level::find_entry(l[0].entries, id));
        if rest.len() == 0 {
            l.drop_first()
        } else {
            l.update(0, LevelView { price: l[0].price, entries: rest })
        }
    } else {
        seq![l[0]] + strike_id(l.drop_first(), id)
    }
}

/// Fills the entry with this id by `q`: removes it (and its emptied level)
/// when exhausted, else lowers it in place.
pub open spec fn fill_id(l: Seq<LevelView>, id: u128, q: int) -> Seq<LevelView>
    decreases l.len(),
{
    if l.len() == 0 {
        l
    } else if contains_entry(l[0].entries, id) {
        let m = crate::level::find_entry(l[0].entries, id);
        let e = l[0].entries[m];
        if e.remaining_quantity <= q {
            let rest = l[0].entries.remove(m);
            if rest.len() == 0 {
                l.drop_first()
            } else {
                l.update(0, LevelView { price: l[0].price, entries: rest })
            }
        } else {
            l.update(
                0,
                LevelView {
                    price: l[0].price,
                    entries: l[0].entries.update(
                        m,
                        OrderEntry {
                            remaining_quantity: (e.remaining_quantity - q) as u64,
                            ..e
                        },
                    ),
                },
            )
        }
    } else {
        seq![l[0]] + fill_id(l.drop_first(), id, q)
    }
}

/// Applies one event.
pub open spec fn replay_step(l: Seq<LevelView>, ev: BookEvent) -> Seq<LevelView> {
    match ev {
        BookEvent::Fill { order_id, quantity } => fill_id(l, order_id, quantity),
        BookEvent::Removed { order_id } => strike_id(l, order_id),
    }
}

/// Applies a run of events in order.
pub open spec fn replay(l: Seq<LevelView>, evs: Seq<BookEvent>) -> Seq<LevelView>
    decreases evs.len(),
{
    if evs.len() == 0 {
        l
    } else {
        replay(replay_step(l, evs[0]), evs.drop_first())
    }
}

/// The events a matching pass emits, in execution order.
pub open spec fn match_events(
    l: Seq<LevelView>,
    user: u128,
    taker_side: Side,
    limit: Option<u64>,
    remaining: int,
) -> Seq<BookEvent>
    decreases entry_count(l), l.len(),
    via match_events_decreases
{
    if remaining <= 0 || l.len() == 0 || !crate::model::crosses(taker_side, limit, l[0].price) {
        Seq::empty()
    } else if l[0].entries.len() == 0 {
        match_events(l.drop_first(), user, taker_side, limit, remaining)
    } else {
        let maker = l[0].entries[0];
        if maker.user_id == user {
            seq![BookEvent::Removed { order_id: maker.order_id }] + match_events(
                pop_head_view(l),
                user,
                taker_side,
                limit,
                remaining,
            )
        } else if maker.remaining_quantity <= remaining {
            seq![
                BookEvent::Fill {
                    order_id: maker.order_id,
                    quantity: maker.remaining_quantity as int,
                },
            ] + match_events(
                pop_head_view(l),
                user,
                taker_side,
                limit,
                remaining - maker.remaining_quantity,
            )
        } else {
            seq![BookEvent::Fill { order_id: maker.order_id, quantity: remaining }]
        }
    }
}

#[via_fn]
proof fn match_events_decreases(
    l: Seq<LevelView>,
    user: u128,
    taker_side: Side,
    limit: Option<u64>,
    remaining: int,
) {
    if remaining <= 0 || l.len() == 0 || !crate::model::crosses(taker_side, limit, l[0].price) {
    } else if l[0].entries.len() == 0 {
    } else {
        lemma_entry_count_pop(l);
    }
}

/// The maker ids of the fill events, in order.
pub open spec fn fills_of(evs: Seq<BookEvent>) -> Seq<(u128, int)>
    decreases evs.len(),
{
    if evs.len() == 0 {
        Seq::empty()
    } else {
        match evs[0] {
            BookEvent::Fill { order_id, quantity } => seq![(order_id, quantity)] + fills_of(
                evs.drop_first(),
            ),
            BookEvent::Removed { .. } => fills_of(evs.drop_first()),
        }
    }
}

/// The maker ids of the removal events, in order.
pub open spec fn removals_of(evs: Seq<BookEvent>) -> Seq<u128>
    decreases evs.len(),
{
    if evs.len() == 0 {
        Seq::empty()
    } else {
        match evs[0] {
            BookEvent::Fill { .. } => removals_of(evs.drop_first()),
            BookEvent::Removed { order_id } => seq![order_id] + removals_of(evs.drop_first()),
        }
    }
}

/// Replay rebuilds the book: applying the emitted events, in execution
/// order, to the opposing side of the old book yields exactly the opposing
/// side of the new one; and the events are exactly the emitted trades (as
/// fills, with their makers and quantities, in trade order) and the
/// self-trade cancels (as removals, in order). Together with the resting of
/// the taker's own residual carried by its final state, the event stream
/// determines the new book from the old one.
pub proof fn lemma_replay_rebuilds_book(
    l: Seq<LevelView>,
    index: Map<u128, (Side, u64)>,
    user: u128,
    taker_side: Side,
    limit: Option<u64>,
    remaining: int,
    tid: int,
)
    requires
        crate::orderbook::ladder_distinct(l),
        forall|i: int| 0 <= i < l.len() ==> (#[trigger] l[i]).entries.len() > 0,
    ensures
        ({
            let r = spec_match(l, index, user, taker_side, limit, remaining, tid);
            let evs = match_events(l, user, taker_side, limit, remaining);
            &&& replay(l, evs) == r.levels
            &&& fills_of(evs) == r.trades.map_values(
                |t: crate::model::TradeRec| (t.maker_order_id, t.quantity),
            )
            &&& removals_of(evs) == r.cancels.map_values(|e: OrderEntry| e.order_id)
        }),
    decreases entry_count(l), l.len(),
{
    let r = spec_match(l, index, user, taker_side, limit, remaining, tid);
    let evs = match_events(l, user, taker_side, limit, remaining);
    if remaining <= 0 || l.len() == 0 || !crate::model::crosses(taker_side, limit, l[0].price) {
        assert(fills_of(evs) =~= r.trades.map_values(
            |t: crate::model::TradeRec| (t.maker_order_id, t.quantity),
        ));
        assert(removals_of(evs) =~= r.cancels.map_values(|e: OrderEntry| e.order_id));
    } else {
        let maker = l[0].entries[0];
        let pl = pop_head_view(l);
        crate::level::lemma_find_entry(l[0].entries, maker.order_id, 0);
        assert(contains_entry(l[0].entries, maker.order_id));
        lemma_pop_distinct(l);
        lemma_entry_count_pop(l);
        assert(forall|i: int| 0 <= i < pl.len() ==> (#[trigger] pl[i]).entries.len() > 0) by {
            if l[0].entries.len() <= 1 {
                assert(forall|i: int| 0 <= i < pl.len() ==> pl[i] == l[i + 1]);
            } else {
                assert(forall|i: int| 0 <= i < pl.len() && i != 0 ==> #[trigger] pl[i] == l[i]);
            }
        }
        assert(l[0].entries.remove(0) =~= l[0].entries.drop_first());
        if maker.user_id == user {
            let ev = BookEvent::Removed { order_id: maker.order_id };
            assert(strike_id(l, maker.order_id) == pl);
            lemma_replay_rebuilds_book(pl, index.remove(maker.order_id), user, taker_side, limit, remaining, tid);
            let evs2 = match_events(pl, user, taker_side, limit, remaining);
            assert(evs == seq![ev] + evs2);
            assert((seq![ev] + evs2)[0] == ev);
            assert((seq![ev] + evs2).drop_first() =~= evs2);
            let r2 = spec_match(pl, index.remove(maker.order_id), user, taker_side, limit, remaining, tid);
            assert(replay(l, evs) == replay(pl, evs2));
            assert(r.cancels == seq![maker] + r2.cancels);
            assert((seq![maker] + r2.cancels).drop_first() =~= r2.cancels);
            assert(removals_of(evs) =~= r.cancels.map_values(|e: OrderEntry| e.order_id)) by {
                assert(removals_of(evs) == seq![maker.order_id] + removals_of(evs2));
                assert(r.cancels.map_values(|e: OrderEntry| e.order_id).len() == 1
                    + r2.cancels.len());
                assert(forall|k: int|
                    0 <= k < r2.cancels.len() ==> (#[trigger] r2.cancels[k]).order_id
                        == r.cancels.map_values(|e: OrderEntry| e.order_id)[k + 1]);
            }
            assert(r.trades == r2.trades);
            assert(fills_of(evs) == fills_of(evs2));
        } else if maker.remaining_quantity <= remaining {
            let ev = BookEvent::Fill {
                order_id: maker.order_id,
                quantity: maker.remaining_quantity as int,
            };
            assert(fill_id(l, maker.order_id, maker.remaining_quantity as int) == pl);
            lemma_replay_rebuilds_book(
                pl,
                index.remove(maker.order_id),
                user,
                taker_side,
                limit,
                remaining - maker.remaining_quantity,
                tid + 1,
            );
            let evs2 = match_events(
                pl,
                user,
                taker_side,
                limit,
                remaining - maker.remaining_quantity,
            );
            assert(evs == seq![ev] + evs2);
            assert((seq![ev] + evs2)[0] == ev);
            assert((seq![ev] + evs2).drop_first() =~= evs2);
            let r2 = spec_match(
                pl,
                index.remove(maker.order_id),
                user,
                taker_side,
                limit,
                remaining - maker.remaining_quantity,
                tid + 1,
            );
            assert(replay(l, evs) == replay(pl, evs2));
            let tr = crate::model::TradeRec {
                trade_id: tid,
                maker_order_id: maker.order_id,
                maker_user_id: maker.user_id,
                price: l[0].price,
                quantity: maker.remaining_quantity as int,
            };
            assert(r.trades == seq![tr] + r2.trades);
            assert((seq![tr] + r2.trades).drop_first() =~= r2.trades);
            assert(fills_of(evs) =~= r.trades.map_values(
                |t: crate::model::TradeRec| (t.maker_order_id, t.quantity),
            )) by {
                assert(fills_of(evs) == seq![(maker.order_id, maker.remaining_quantity as int)]
                    + fills_of(evs2));
                assert(forall|k: int|
                    0 <= k < r2.trades.len() ==> ((#[trigger] r2.trades[k]).maker_order_id,
                    r2.trades[k].quantity) == r.trades.map_values(
                        |t: crate::model::TradeRec| (t.maker_order_id, t.quantity),
                    )[k + 1]);
            }
            assert(r.cancels == r2.cancels);
            assert(removals_of(evs) == removals_of(evs2));
        } else {
            let ev = BookEvent::Fill { order_id: maker.order_id, quantity: remaining };
            assert(evs == seq![ev]);
            assert(evs[0] == ev);
            assert(evs.drop_first() =~= Seq::<BookEvent>::empty());
            assert(replay(replay_step(l, ev), Seq::<BookEvent>::empty()) == replay_step(l, ev));
            assert(replay(l, evs) == replay_step(l, ev));
            assert(fills_of(Seq::<BookEvent>::empty()) =~= Seq::<(u128, int)>::empty());
            assert(removals_of(Seq::<BookEvent>::empty()) =~= Seq::<u128>::empty());
            assert(fills_of(evs) =~= seq![(maker.order_id, remaining)]);
            let tr = crate::model::TradeRec {
                trade_id: tid,
                maker_order_id: maker.order_id,
                maker_user_id: maker.user_id,
                price: l[0].price,
                quantity: remaining,
            };
            assert(r.trades == seq![tr]);
            assert(r.trades.map_values(
                |t: crate::model::TradeRec| (t.maker_order_id, t.quantity),
            )[0] == (maker.order_id, remaining));
            assert(r.cancels.len() == 0);
            assert(fill_id(l, maker.order_id, remaining) == reduce_head_view(l, remaining as u64));
            assert(r.levels == reduce_head_view(l, remaining as u64));
            assert(fills_of(evs) =~= r.trades.map_values(
                |t: crate::model::TradeRec| (t.maker_order_id, t.quantity),
            ));
            assert(removals_of(evs) =~= r.cancels.map_values(|e: OrderEntry| e.order_id));
        }
    }
}

/// Popping the head entry keeps a ladder's order ids pairwise distinct.
proof fn lemma_pop_distinct(l: Seq<LevelView>)
    requires
        crate::orderbook::ladder_distinct(l),
        l.len() > 0,
        l[0].entries.len() > 0,
    ensures
        crate::orderbook::ladder_distinct(pop_head_view(l)),
{
    let pl = pop_head_view(l);
    if l[0].entries.len() <= 1 {
        assert(forall|a: int| 0 <= a < pl.len() ==> pl[a] == l[a + 1]);
    } else {
        assert(forall|a: int| 0 <= a < pl.len() && a != 0 ==> #[trigger] pl[a] == l[a]);
        assert(forall|c: int|
            0 <= c < pl[0].entries.len() ==> #[trigger] pl[0].entries[c] == l[0].entries[c + 1]);
    }
}

} // verus!
