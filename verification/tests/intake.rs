//! Intake validation, decimal conversion, symbols and errors.

use matching_engine::api::{validate_order, SubmitOrderRequest};
use matching_engine::events::outcome_reason;
use matching_engine::decimal::parse_units;
use matching_engine::error::{ExchangeError, ServiceError, TradingError};
use matching_engine::types::{OrderStatus, OrderType, Side, Symbol, TimeInForce};

fn request() -> SubmitOrderRequest {
    SubmitOrderRequest {
        client_order_id: Some("c-1".to_string()),
        symbol: "eth-usdt".to_string(),
        side: Side::Buy,
        order_type: OrderType::Limit,
        quantity: "1.5".to_string(),
        price: Some("2000".to_string()),
        time_in_force: None,
        user_id: 42,
    }
}

#[test]
fn parse_units_exact() {
    assert_eq!(parse_units("2000", 8), Some(200_000_000_000));
    assert_eq!(parse_units("1.5", 8), Some(150_000_000));
    assert_eq!(parse_units("0.00000001", 8), Some(1));
    assert_eq!(parse_units("0", 8), Some(0));
    assert_eq!(parse_units("12", 0), Some(12));
}

#[test]
fn parse_units_rejects() {
    // More precision than the scale can hold exactly.
    assert_eq!(parse_units("0.000000001", 8), None);
    assert_eq!(parse_units("-1", 8), None);
    assert_eq!(parse_units("abc", 8), None);
    assert_eq!(parse_units("", 8), None);
    assert_eq!(parse_units("1.5", 0), None);
}

#[test]
fn validate_ok() {
    let r = validate_order(&request(), 8).unwrap();
    assert_eq!(r.status, OrderStatus::Pending);
    assert_eq!(r.quantity, 150_000_000);
    assert_eq!(r.remaining_quantity, 150_000_000);
    assert_eq!(r.filled_quantity, 0);
    assert_eq!(r.price, Some(200_000_000_000));
    assert_eq!(r.time_in_force, TimeInForce::GTC);
    assert_eq!(r.symbol.0, "ETH-USDT");
    assert_eq!(r.client_order_id, "c-1");
    assert_eq!(r.user_id, 42);
}

#[test]
fn validate_rejects_bad_quantity() {
    let mut req = request();
    req.quantity = "0".to_string();
    assert_eq!(validate_order(&req, 8).unwrap_err().code, "INVALID_QUANTITY");
    req.quantity = "nope".to_string();
    assert_eq!(validate_order(&req, 8).unwrap_err().code, "INVALID_QUANTITY");
    req.quantity = "-2".to_string();
    assert_eq!(validate_order(&req, 8).unwrap_err().code, "INVALID_QUANTITY");
}

#[test]
fn validate_rejects_bad_price() {
    let mut req = request();
    req.price = Some("zero".to_string());
    assert_eq!(validate_order(&req, 8).unwrap_err().code, "INVALID_PRICE");
    req.price = Some("0".to_string());
    assert_eq!(validate_order(&req, 8).unwrap_err().code, "INVALID_PRICE");
}

#[test]
fn validate_requires_price_for_limit() {
    let mut req = request();
    req.price = None;
    assert_eq!(validate_order(&req, 8).unwrap_err().code, "PRICE_REQUIRED");
}

#[test]
fn validate_rejects_stop_orders() {
    let mut req = request();
    req.order_type = OrderType::StopLimit;
    req.price = Some("2000".to_string());
    assert_eq!(validate_order(&req, 8).unwrap_err().code, "UNSUPPORTED_OPERATION");
}

#[test]
fn validate_rejects_bad_symbol() {
    let mut req = request();
    req.symbol = "ETHUSDT".to_string();
    assert_eq!(validate_order(&req, 8).unwrap_err().code, "INVALID_SYMBOL");
    req.symbol = "ETH-USDT-X".to_string();
    assert_eq!(validate_order(&req, 8).unwrap_err().code, "INVALID_SYMBOL");
}

#[test]
fn market_order_drops_price() {
    let mut req = request();
    req.order_type = OrderType::Market;
    let r = validate_order(&req, 8).unwrap();
    assert_eq!(r.order_type, OrderType::Market);
    assert_eq!(r.price, None);
}

#[test]
fn symbol_canonical_form() {
    let s = Symbol::new("eth", "usdt");
    assert_eq!(s.0, "ETH-USDT");
    assert_eq!(s.base(), "ETH");
    assert_eq!(s.quote(), "USDT");
    let t = Symbol::new("BTC", "USDT");
    assert_eq!(t.base(), "BTC");
    assert_eq!(t.quote(), "USDT");
    assert_eq!(Side::Buy.opposite(), Side::Sell);
    assert_eq!(Side::Sell.opposite(), Side::Buy);
}

#[test]
fn symbol_uppercases_per_unicode() {
    // The sharp-s expands to SS under Unicode uppercasing.
    let s = Symbol::new("wei\u{00df}", "usdt");
    assert_eq!(s.0, "WEISS-USDT");
}

#[test]
fn outcome_reasons() {
    let mut o = matching_engine::api::validate_order(&request(), 8).unwrap();
    assert_eq!(outcome_reason(&o), None);
    o.status = OrderStatus::Rejected;
    assert_eq!(outcome_reason(&o), Some("fill_or_kill_failed"));
    o.status = OrderStatus::Cancelled;
    assert_eq!(outcome_reason(&o), Some("ioc_residual"));
    o.order_type = OrderType::Market;
    assert_eq!(outcome_reason(&o), Some("no_liquidity"));
    o.status = OrderStatus::Filled;
    assert_eq!(outcome_reason(&o), None);
}

#[test]
fn error_codes_and_statuses() {
    let e = ServiceError::Trading(TradingError::OrderNotFound("x".to_string()));
    assert_eq!(e.status_code(), 404);
    assert_eq!(e.error_code(), "ORDER_NOT_FOUND");
    let e = ServiceError::Trading(TradingError::RateLimitExceeded);
    assert_eq!(e.status_code(), 429);
    assert_eq!(e.error_code(), "RATE_LIMIT_EXCEEDED");
    let e = ServiceError::Trading(TradingError::SymbolNotFound("x".to_string()));
    assert_eq!(e.status_code(), 404);
    let e = ServiceError::Exchange(ExchangeError::RateLimited);
    assert_eq!(e.status_code(), 429);
    assert_eq!(e.error_code(), "EXCHANGE_ERROR");
    let e = ServiceError::Internal("boom".to_string());
    assert_eq!(e.status_code(), 500);
    assert_eq!(e.error_code(), "INTERNAL_ERROR");
    let e = ServiceError::Configuration("bad".to_string());
    assert_eq!(e.status_code(), 500);
    assert_eq!(e.error_code(), "CONFIG_ERROR");
}
