//! Engine routing, configuration, events and the price level queue.

use matching_engine::config::Config;
use matching_engine::engine::MatchingEngine;
use matching_engine::events::Event;
use matching_engine::level::{Level, OrderEntry};
use matching_engine::types::{Order, OrderStatus, OrderType, Side, Symbol, TimeInForce};

fn order(symbol: Symbol, side: Side, price: u64, quantity: u64, user: u128) -> Order {
    Order {
        id: uuid::Uuid::new_v4().as_u128(),
        client_order_id: "t".to_string(),
        user_id: user,
        symbol,
        side,
        order_type: OrderType::Limit,
        time_in_force: TimeInForce::GTC,
        status: OrderStatus::Pending,
        price: Some(price),
        stop_price: None,
        quantity,
        filled_quantity: 0,
        remaining_quantity: quantity,
        fill_value: 0,
        sequence: 0,
        created_at: 0,
        updated_at: 0,
    }
}

fn engine() -> MatchingEngine {
    MatchingEngine::new(vec![Symbol::new("ETH", "USDT"), Symbol::new("BTC", "USDT")])
}

#[test]
fn engine_routes_by_symbol() {
    let mut e = engine();
    let eth = Symbol::new("ETH", "USDT");
    let (r, trades, _) = e.process_new_order(order(eth.duplicate(), Side::Sell, 2000, 1, 1)).unwrap();
    assert_eq!(r.status, OrderStatus::Open);
    assert!(trades.is_empty());
    let (r2, trades2, _) = e.process_new_order(order(eth.duplicate(), Side::Buy, 2000, 1, 2)).unwrap();
    assert_eq!(r2.status, OrderStatus::Filled);
    assert_eq!(trades2.len(), 1);
    // The other book is untouched.
    let btc = Symbol::new("BTC", "USDT");
    let (bids, asks, seq) = e.get_depth(&btc, 10).unwrap();
    assert!(bids.is_empty());
    assert!(asks.is_empty());
    assert_eq!(seq, 0);
}

#[test]
fn engine_rejects_unknown_symbol() {
    let mut e = engine();
    let sol = Symbol::new("SOL", "USDT");
    assert!(e.process_new_order(order(sol.duplicate(), Side::Sell, 2000, 1, 1)).is_err());
    assert!(e.process_cancel(7, &sol).is_err());
    assert!(e.get_depth(&sol, 10).is_err());
    assert!(e.get_bbo(&sol).is_err());
}

#[test]
fn engine_cancel_roundtrip() {
    let mut e = engine();
    let eth = Symbol::new("ETH", "USDT");
    let (r, _, _) = e.process_new_order(order(eth.duplicate(), Side::Sell, 2000, 1, 1)).unwrap();
    assert_eq!(e.process_cancel(r.id, &eth).unwrap(), true);
    assert_eq!(e.process_cancel(r.id, &eth).unwrap(), false);
}

#[test]
fn engine_wide_sequences_are_unique() {
    let mut e = engine();
    let eth = Symbol::new("ETH", "USDT");
    let btc = Symbol::new("BTC", "USDT");
    // Orders on different books of one engine still get distinct,
    // strictly increasing sequence numbers.
    let (a, _, _) = e.process_new_order(order(eth.duplicate(), Side::Sell, 2000, 1, 1)).unwrap();
    let (b, _, _) = e.process_new_order(order(btc.duplicate(), Side::Sell, 30000, 1, 1)).unwrap();
    let (c, _, _) = e.process_new_order(order(eth.duplicate(), Side::Sell, 2001, 1, 1)).unwrap();
    assert_eq!(a.sequence, 0);
    assert_eq!(b.sequence, 1);
    assert_eq!(c.sequence, 2);
    assert!(a.sequence != b.sequence && b.sequence != c.sequence && a.sequence != c.sequence);
}

#[test]
fn engine_rejects_duplicate_resting_id() {
    let mut e = engine();
    let eth = Symbol::new("ETH", "USDT");
    let o = order(eth.duplicate(), Side::Sell, 2000, 1, 1);
    let dup = order(eth.duplicate(), Side::Sell, 2001, 1, 1);
    let dup = matching_engine::types::Order { id: o.id, ..dup };
    e.process_new_order(o).unwrap();
    assert!(e.process_new_order(dup).is_err());
}

#[test]
fn engine_counts_resting_orders() {
    let mut e = engine();
    let eth = Symbol::new("ETH", "USDT");
    assert_eq!(e.order_count(&eth).unwrap(), 0);
    let (a, _, _) = e.process_new_order(order(eth.duplicate(), Side::Sell, 2000, 1, 1)).unwrap();
    e.process_new_order(order(eth.duplicate(), Side::Sell, 2001, 1, 1)).unwrap();
    assert_eq!(e.order_count(&eth).unwrap(), 2);
    e.process_cancel(a.id, &eth).unwrap();
    assert_eq!(e.order_count(&eth).unwrap(), 1);
    let sol = Symbol::new("SOL", "USDT");
    assert!(e.order_count(&sol).is_err());
}

#[test]
fn engine_lists_symbols() {
    let e = engine();
    let syms = e.symbols();
    assert_eq!(syms.len(), 2);
    assert_eq!(syms[0].0, "ETH-USDT");
    assert_eq!(syms[1].0, "BTC-USDT");
}

#[test]
fn event_envelope() {
    let ev = Event::new("order_updated", "matching-engine", 7u64);
    assert_eq!(ev.event_type, "order_updated");
    assert_eq!(ev.source, "matching-engine");
    assert_eq!(ev.sequence, 0);
    assert_eq!(ev.correlation_id, None);
    assert_eq!(ev.payload, 7);
    let ev2 = ev.with_correlation(99);
    assert_eq!(ev2.correlation_id, Some(99));
    assert_eq!(ev2.payload, 7);
}

#[test]
fn level_queue_is_fifo() {
    let mut lvl = Level::new(2000);
    assert!(lvl.is_empty());
    let e1 = OrderEntry { order_id: 1, user_id: 1, price: 2000, remaining_quantity: 3, sequence: 0 };
    let e2 = OrderEntry { order_id: 2, user_id: 2, price: 2000, remaining_quantity: 4, sequence: 1 };
    lvl.add(e1);
    lvl.add(e2);
    assert_eq!(lvl.len(), 2);
    assert_eq!(lvl.total_quantity, 7);
    assert_eq!(lvl.peek_head().unwrap().order_id, 1);
    let popped = lvl.pop_head().unwrap();
    assert_eq!(popped.order_id, 1);
    assert_eq!(lvl.total_quantity, 4);
    assert!(lvl.remove_by_id(2).is_some());
    assert!(lvl.remove_by_id(2).is_none());
    assert_eq!(lvl.total_quantity, 0);
    assert!(lvl.is_empty());
}

#[test]
fn config_defaults_and_required() {
    let pairs: Vec<(String, String)> = vec![
        ("database_url".to_string(), "postgres://localhost/t".to_string()),
        ("redis_url".to_string(), "redis://localhost".to_string()),
        ("kafka_brokers".to_string(), "localhost:9092".to_string()),
    ];
    let c = Config::load(&pairs).unwrap();
    assert_eq!(c.host, "0.0.0.0");
    assert_eq!(c.port, 8080);
    assert_eq!(c.log_level, "info");
    assert_eq!(c.kafka_group_id, "matching-engine");
    assert_eq!(c.matching_interval_us, 100);
    assert_eq!(c.max_orders_per_symbol, 100_000);
    assert_eq!(c.metrics_port, 9090);
    assert_eq!(c.database_pool_size, 20);

    let missing: Vec<(String, String)> = vec![];
    assert!(Config::load(&missing).is_err());

    let mut bad = pairs.clone();
    bad.push(("port".to_string(), "eighty".to_string()));
    assert!(Config::load(&bad).is_err());

    let mut custom = pairs.clone();
    custom.push(("port".to_string(), "9999".to_string()));
    custom.push(("host".to_string(), "127.0.0.1".to_string()));
    let c2 = Config::load(&custom).unwrap();
    assert_eq!(c2.port, 9999);
    assert_eq!(c2.host, "127.0.0.1");
}
