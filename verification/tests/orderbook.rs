//! Order book tests: the matching scenarios on symbol ETH-USDT.

use matching_engine::level::OrderEntry;
use matching_engine::orderbook::OrderBook;
use matching_engine::types::{Order, OrderStatus, OrderType, Side, Symbol, TimeInForce, Trade};

fn create_order_for(side: Side, price: u64, quantity: u64, user: u128) -> Order {
    Order {
        id: fresh(),
        client_order_id: "test".to_string(),
        user_id: user,
        symbol: Symbol::new("ETH", "USDT"),
        side,
        order_type: OrderType::Limit,
        time_in_force: TimeInForce::GTC,
        status: OrderStatus::Pending,
        price: Some(price),
        stop_price: None,
        quantity,
        filled_quantity: 0,
        remaining_quantity: quantity,
        fill_value: 0,
        sequence: 0,
        created_at: 0,
        updated_at: 0,
    }
}

fn market_order_for(side: Side, quantity: u64, user: u128) -> Order {
    let mut o = create_order_for(side, 0, quantity, user);
    o.order_type = OrderType::Market;
    o.price = None;
    o
}

fn fresh() -> u128 {
    uuid::Uuid::new_v4().as_u128()
}

#[test]
fn test_add_and_match() {
    let mut book = OrderBook::new(Symbol::new("ETH", "USDT"));

    // Add sell order
    let sell = create_order_for(Side::Sell, 2000, 1, 1);
    let (sell_result, trades, _) = book.process_order(sell);
    assert!(trades.is_empty());
    assert_eq!(sell_result.status, OrderStatus::Open);

    // Add matching buy order
    let buy = create_order_for(Side::Buy, 2000, 1, 2);
    let (buy_result, trades, _) = book.process_order(buy);
    assert_eq!(trades.len(), 1);
    assert_eq!(buy_result.status, OrderStatus::Filled);
}

#[test]
fn test_partial_fill() {
    let mut book = OrderBook::new(Symbol::new("ETH", "USDT"));

    // Add sell order for 2 ETH
    let sell = create_order_for(Side::Sell, 2000, 2, 1);
    book.process_order(sell);

    // Buy only 1 ETH
    let buy = create_order_for(Side::Buy, 2000, 1, 2);
    let (_, trades, _) = book.process_order(buy);

    assert_eq!(trades.len(), 1);
    assert_eq!(trades[0].quantity, 1);

    // Check remaining depth
    let (_, asks) = book.get_depth(10);
    assert_eq!(asks.len(), 1);
    assert_eq!(asks[0].quantity, 1);
}

#[test]
fn resting_limit_does_not_match() {
    let mut book = OrderBook::new(Symbol::new("ETH", "USDT"));
    let (r, trades, cancels) = book.process_order(create_order_for(Side::Sell, 2000, 1, 1));
    assert!(trades.is_empty());
    assert!(cancels.is_empty());
    assert_eq!(r.status, OrderStatus::Open);
    let (bids, asks) = book.get_depth(10);
    assert!(bids.is_empty());
    assert_eq!(asks.len(), 1);
    assert_eq!(asks[0].price, 2000);
    assert_eq!(asks[0].quantity, 1);
    assert_eq!(asks[0].order_count, 1);
}

#[test]
fn crossing_market_buy() {
    let mut book = OrderBook::new(Symbol::new("ETH", "USDT"));
    let (maker, _, _) = book.process_order(create_order_for(Side::Sell, 2000, 1, 1));
    let (taker, trades, _) = book.process_order(market_order_for(Side::Buy, 1, 2));
    assert_eq!(trades.len(), 1);
    let t: &Trade = &trades[0];
    assert_eq!(t.price, 2000);
    assert_eq!(t.quantity, 1);
    assert_eq!(t.maker_order_id, maker.id);
    assert_eq!(t.taker_side, Side::Buy);
    assert_eq!(taker.status, OrderStatus::Filled);
    let (_, asks) = book.get_depth(10);
    assert!(asks.is_empty());
}

#[test]
fn partial_fill_statuses() {
    let mut book = OrderBook::new(Symbol::new("ETH", "USDT"));
    book.process_order(create_order_for(Side::Sell, 2000, 2, 1));
    let (buy, trades, _) = book.process_order(create_order_for(Side::Buy, 2000, 1, 2));
    assert_eq!(trades.len(), 1);
    assert_eq!(trades[0].price, 2000);
    assert_eq!(trades[0].quantity, 1);
    assert_eq!(buy.status, OrderStatus::Filled);
    let (_, asks) = book.get_depth(10);
    assert_eq!(asks.len(), 1);
    assert_eq!(asks[0].price, 2000);
    assert_eq!(asks[0].quantity, 1);
    assert_eq!(asks[0].order_count, 1);
}

#[test]
fn self_trade_prevention_cancels_maker() {
    let mut book = OrderBook::new(Symbol::new("ETH", "USDT"));
    let (resting, _, _) = book.process_order(create_order_for(Side::Sell, 2000, 1, 9));
    // Same user crosses own order: no trade, the resting maker is cancelled.
    let (buy, trades, cancels) = book.process_order(create_order_for(Side::Buy, 2000, 1, 9));
    assert!(trades.is_empty());
    assert_eq!(cancels.len(), 1);
    let c: &OrderEntry = &cancels[0];
    assert_eq!(c.order_id, resting.id);
    assert_eq!(buy.status, OrderStatus::Open);
    let (bids, asks) = book.get_depth(10);
    assert!(asks.is_empty());
    assert_eq!(bids.len(), 1);
}

#[test]
fn self_trade_prevention_market_taker_cancelled() {
    let mut book = OrderBook::new(Symbol::new("ETH", "USDT"));
    book.process_order(create_order_for(Side::Sell, 2000, 1, 9));
    let (buy, trades, cancels) = book.process_order(market_order_for(Side::Buy, 1, 9));
    assert!(trades.is_empty());
    assert_eq!(cancels.len(), 1);
    assert_eq!(buy.status, OrderStatus::Cancelled);
    let (bids, asks) = book.get_depth(10);
    assert!(asks.is_empty());
    assert!(bids.is_empty());
}

#[test]
fn fok_insufficient_liquidity_rejected() {
    let mut book = OrderBook::new(Symbol::new("ETH", "USDT"));
    book.process_order(create_order_for(Side::Sell, 2000, 5, 1));
    book.process_order(create_order_for(Side::Sell, 2001, 5, 1));
    let seq_before = book.book_sequence();
    let mut fok = create_order_for(Side::Buy, 2001, 20, 2);
    fok.time_in_force = TimeInForce::FOK;
    let (r, trades, cancels) = book.process_order(fok);
    assert!(trades.is_empty());
    assert!(cancels.is_empty());
    assert_eq!(r.status, OrderStatus::Rejected);
    assert_eq!(r.filled_quantity, 0);
    assert_eq!(r.remaining_quantity, 20);
    // Book unchanged.
    assert_eq!(book.book_sequence(), seq_before);
    let (_, asks) = book.get_depth(10);
    assert_eq!(asks.len(), 2);
    assert_eq!(asks[0].price, 2000);
    assert_eq!(asks[0].quantity, 5);
    assert_eq!(asks[1].price, 2001);
    assert_eq!(asks[1].quantity, 5);
}

#[test]
fn fok_sufficient_liquidity_fills() {
    let mut book = OrderBook::new(Symbol::new("ETH", "USDT"));
    book.process_order(create_order_for(Side::Sell, 2000, 5, 1));
    book.process_order(create_order_for(Side::Sell, 2001, 5, 1));
    let mut fok = create_order_for(Side::Buy, 2001, 10, 2);
    fok.time_in_force = TimeInForce::FOK;
    let (r, trades, _) = book.process_order(fok);
    assert_eq!(r.status, OrderStatus::Filled);
    assert_eq!(trades.len(), 2);
    let (_, asks) = book.get_depth(10);
    assert!(asks.is_empty());
}

#[test]
fn price_time_priority() {
    let mut book = OrderBook::new(Symbol::new("ETH", "USDT"));
    let (first, _, _) = book.process_order(create_order_for(Side::Sell, 2000, 10, 1));
    let (second, _, _) = book.process_order(create_order_for(Side::Sell, 2000, 10, 2));
    let (taker, trades, _) = book.process_order(create_order_for(Side::Buy, 2000, 15, 3));
    assert_eq!(trades.len(), 2);
    assert_eq!(trades[0].maker_order_id, first.id);
    assert_eq!(trades[0].quantity, 10);
    assert_eq!(trades[1].maker_order_id, second.id);
    assert_eq!(trades[1].quantity, 5);
    assert_eq!(taker.status, OrderStatus::Filled);
    let (_, asks) = book.get_depth(10);
    assert_eq!(asks.len(), 1);
    assert_eq!(asks[0].quantity, 5);
}

#[test]
fn best_price_first() {
    let mut book = OrderBook::new(Symbol::new("ETH", "USDT"));
    book.process_order(create_order_for(Side::Sell, 2010, 1, 1));
    book.process_order(create_order_for(Side::Sell, 2000, 1, 1));
    book.process_order(create_order_for(Side::Buy, 1990, 1, 1));
    book.process_order(create_order_for(Side::Buy, 1995, 1, 1));
    let (best_bid, best_ask) = book.get_bbo();
    assert_eq!(best_bid, Some(1995));
    assert_eq!(best_ask, Some(2000));
    let (taker, trades, _) = book.process_order(create_order_for(Side::Buy, 2010, 2, 2));
    assert_eq!(trades.len(), 2);
    assert_eq!(trades[0].price, 2000);
    assert_eq!(trades[1].price, 2010);
    assert_eq!(taker.status, OrderStatus::Filled);
}

#[test]
fn trade_quote_quantity_is_exact_product() {
    let mut book = OrderBook::new(Symbol::new("ETH", "USDT"));
    book.process_order(create_order_for(Side::Sell, 2000, 3, 1));
    let (buy, trades, _) = book.process_order(create_order_for(Side::Buy, 2000, 3, 2));
    assert_eq!(trades.len(), 1);
    assert_eq!(trades[0].quote_quantity, 2000u128 * 3u128);
    assert_ne!(trades[0].maker_user_id, trades[0].taker_user_id);
    assert_eq!(buy.fill_value, 6000);
    assert_eq!(buy.filled_quantity, 3);
}

#[test]
fn filled_iff_no_remaining() {
    let mut book = OrderBook::new(Symbol::new("ETH", "USDT"));
    book.process_order(create_order_for(Side::Sell, 2000, 2, 1));
    let (partial, _, _) = book.process_order(create_order_for(Side::Buy, 2000, 3, 2));
    assert_eq!(partial.status, OrderStatus::PartiallyFilled);
    assert_eq!(partial.remaining_quantity, 1);
    assert_eq!(partial.filled_quantity, 2);
    let (full, _, _) = book.process_order(create_order_for(Side::Sell, 2000, 1, 1));
    assert_eq!(full.status, OrderStatus::Filled);
    assert_eq!(full.remaining_quantity, 0);
}

#[test]
fn ioc_residual_cancelled() {
    let mut book = OrderBook::new(Symbol::new("ETH", "USDT"));
    book.process_order(create_order_for(Side::Sell, 2000, 1, 1));
    let mut ioc = create_order_for(Side::Buy, 2000, 3, 2);
    ioc.time_in_force = TimeInForce::IOC;
    let (r, trades, _) = book.process_order(ioc);
    assert_eq!(trades.len(), 1);
    assert_eq!(r.status, OrderStatus::Cancelled);
    assert_eq!(r.filled_quantity, 1);
    assert_eq!(r.remaining_quantity, 2);
    // The residual did not rest.
    let (bids, _) = book.get_depth(10);
    assert!(bids.is_empty());
}

#[test]
fn market_without_liquidity_cancelled() {
    let mut book = OrderBook::new(Symbol::new("ETH", "USDT"));
    let (r, trades, _) = book.process_order(market_order_for(Side::Buy, 1, 2));
    assert!(trades.is_empty());
    assert_eq!(r.status, OrderStatus::Cancelled);
}

#[test]
fn gtd_rests_like_gtc() {
    let mut book = OrderBook::new(Symbol::new("ETH", "USDT"));
    let mut gtd = create_order_for(Side::Buy, 1990, 1, 2);
    gtd.time_in_force = TimeInForce::GTD;
    let (r, _, _) = book.process_order(gtd);
    assert_eq!(r.status, OrderStatus::Open);
    let (bids, _) = book.get_depth(10);
    assert_eq!(bids.len(), 1);
}

#[test]
fn cancel_known_then_unknown() {
    let mut book = OrderBook::new(Symbol::new("ETH", "USDT"));
    let (r, _, _) = book.process_order(create_order_for(Side::Sell, 2000, 1, 1));
    let seq_after_add = book.book_sequence();
    assert!(book.cancel_order(r.id));
    assert_eq!(book.book_sequence(), seq_after_add + 1);
    // A second cancel fails and changes nothing.
    assert!(!book.cancel_order(r.id));
    assert_eq!(book.book_sequence(), seq_after_add + 1);
    let (_, asks) = book.get_depth(10);
    assert!(asks.is_empty());
}

#[test]
fn cancel_keeps_other_orders() {
    let mut book = OrderBook::new(Symbol::new("ETH", "USDT"));
    let (a, _, _) = book.process_order(create_order_for(Side::Sell, 2000, 1, 1));
    let (b, _, _) = book.process_order(create_order_for(Side::Sell, 2000, 2, 2));
    assert!(book.cancel_order(a.id));
    let (_, asks) = book.get_depth(10);
    assert_eq!(asks.len(), 1);
    assert_eq!(asks[0].quantity, 2);
    assert!(book.cancel_order(b.id));
    let (_, asks2) = book.get_depth(10);
    assert!(asks2.is_empty());
}

#[test]
fn sequences_are_monotonic() {
    let mut book = OrderBook::new(Symbol::new("ETH", "USDT"));
    let (a, _, _) = book.process_order(create_order_for(Side::Sell, 2000, 1, 1));
    let (b, _, _) = book.process_order(create_order_for(Side::Sell, 2001, 1, 1));
    let (c, _, _) = book.process_order(create_order_for(Side::Sell, 2002, 1, 1));
    assert!(a.sequence < b.sequence);
    assert!(b.sequence < c.sequence);
}

#[test]
fn book_sequence_bumps_only_on_change() {
    let mut book = OrderBook::new(Symbol::new("ETH", "USDT"));
    let s0 = book.book_sequence();
    // A market order against an empty book changes nothing visible.
    book.process_order(market_order_for(Side::Buy, 1, 2));
    assert_eq!(book.book_sequence(), s0);
    // A resting limit order does.
    book.process_order(create_order_for(Side::Sell, 2000, 1, 1));
    assert_eq!(book.book_sequence(), s0 + 1);
    // A trade does too.
    book.process_order(create_order_for(Side::Buy, 2000, 1, 2));
    assert_eq!(book.book_sequence(), s0 + 2);
}
