//! Event envelopes and payloads for the platform's partitioned log.
//!
//! Every event is wrapped in an envelope carrying a fresh id, a type tag,
//! an optional correlation id, the source service, a timestamp and a
//! producer-assigned sequence. Decimals in payloads are integer unit counts;
//! the unverified edge renders them as strings on the wire.

use vstd::prelude::*;

use crate::types::{Order, OrderStatus, OrderType, Side, Symbol, Trade};

verus! {

pub const TOPIC_ORDERS: &'static str = "trading.orders";

pub const TOPIC_TRADES: &'static str = "trading.trades";

pub const TOPIC_ORDER_BOOK: &'static str = "market.orderbook";

pub const TOPIC_PRICES: &'static str = "market.prices";

pub const TOPIC_POSITIONS: &'static str = "risk.positions";

pub const TOPIC_ALERTS: &'static str = "risk.alerts";

pub const TOPIC_AUDIT: &'static str = "audit.events";

/// Event envelope with metadata for tracing and replay.
#[derive(Debug, Clone)]
pub struct Event<T> {
    /// Unique event id.
    pub id: u128,
    /// Event type, for routing.
    pub event_type: String,
    /// Correlation id for request tracing.
    pub correlation_id: Option<u128>,
    /// Source service.
    pub source: String,
    /// Event timestamp, milliseconds since the Unix epoch.
    pub timestamp: i64,
    /// Sequence number for ordering; assigned by the producer.
    pub sequence: u64,
    /// Event payload.
    pub payload: T,
}

impl<T> Event<T> {
    /// A fresh envelope around the payload, with a random id, the current
    /// time, no correlation, and sequence zero.
    pub fn new(event_type: &str, source: &str, payload: T) -> (e: Event<T>)
        ensures
            e.event_type@ == event_type@,
            e.source@ == source@,
            e.correlation_id is None,
            e.sequence == 0,
            e.payload == payload,
    {
        Event {
            id: crate::ident::fresh_id(),
            event_type: event_type.to_owned(),
            correlation_id: None,
            source: source.to_owned(),
            timestamp: crate::clock::now_millis(),
            sequence: 0,
            payload,
        }
    }

    /// The same envelope with a correlation id attached.
    pub fn with_correlation(self, correlation_id: u128) -> (e: Event<T>)
        ensures
            e.correlation_id == Some(correlation_id),
            e.id == self.id,
            e.event_type == self.event_type,
            e.source == self.source,
            e.timestamp == self.timestamp,
            e.sequence == self.sequence,
            e.payload == self.payload,
    {
        Event { correlation_id: Some(correlation_id), ..self }
    }
}

/// New order submitted to the matching engine.
#[derive(Debug, Clone)]
pub struct OrderSubmitted {
    pub order: Order,
}

/// Order accepted by the matching engine.
#[derive(Debug, Clone)]
pub struct OrderAccepted {
    pub order_id: u128,
    pub client_order_id: String,
    pub symbol: Symbol,
    pub status: OrderStatus,
    pub timestamp: i64,
}

/// Order rejected by the matching engine.
#[derive(Debug, Clone)]
pub struct OrderRejected {
    pub order_id: u128,
    pub client_order_id: String,
    pub reason: String,
    pub timestamp: i64,
}

/// Order status update.
#[derive(Debug, Clone)]
pub struct OrderUpdated {
    pub order_id: u128,
    pub client_order_id: String,
    pub symbol: Symbol,
    pub status: OrderStatus,
    pub filled_quantity: u64,
    pub remaining_quantity: u64,
    /// Exact quote value of all fills; the average fill price is this over
    /// the filled quantity.
    pub fill_value: u128,
    pub timestamp: i64,
}

/// Order cancelled.
#[derive(Debug, Clone)]
pub struct OrderCancelled {
    pub order_id: u128,
    pub client_order_id: String,
    pub symbol: Symbol,
    pub reason: String,
    pub timestamp: i64,
}

/// Trade executed.
#[derive(Debug, Clone)]
pub struct TradeExecuted {
    pub trade: Trade,
}

/// Order book update: (price, quantity) per level, best first.
#[derive(Debug, Clone)]
pub struct OrderBookUpdate {
    pub symbol: Symbol,
    pub bids: Vec<(u64, u128)>,
    pub asks: Vec<(u64, u128)>,
    pub sequence: u64,
    pub timestamp: i64,
}

/// Price tick.
#[derive(Debug, Clone)]
pub struct PriceTick {
    pub symbol: Symbol,
    pub price: u64,
    pub quantity: u64,
    pub side: Side,
    pub timestamp: i64,
}

/// The reason attached to a terminal processing outcome, if any: a
/// fill-or-kill order that could not fill whole is rejected; a residual
/// that could not rest is cancelled for want of liquidity (a market order)
/// or as an immediate-or-cancel remainder. Other statuses carry no reason.
pub open spec fn spec_outcome_reason(status: OrderStatus, order_type: OrderType) -> Option<
    Seq<char>,
> {
    if status == OrderStatus::Rejected {
        Some("fill_or_kill_failed"@)
    } else if status == OrderStatus::Cancelled {
        if order_type == OrderType::Market {
            Some("no_liquidity"@)
        } else {
            Some("ioc_residual"@)
        }
    } else {
        Option::None
    }
}

/// The reason the published event carries for a processed order's terminal
/// outcome, per `spec_outcome_reason`.
pub fn outcome_reason(order: &Order) -> (r: Option<&'static str>)
    ensures
        r is Some <==> spec_outcome_reason(order.status, order.order_type) is Some,
        r is Some ==> r.unwrap()@ == spec_outcome_reason(order.status, order.order_type).unwrap(),
{
    match order.status {
        OrderStatus::Rejected => Some("fill_or_kill_failed"),
        OrderStatus::Cancelled => {
            if order.order_type == OrderType::Market {
                Some("no_liquidity")
            } else {
                Some("ioc_residual")
            }
        },
        _ => None,
    }
}

/// Risk alert kinds.
#[derive(Debug, Clone, Copy, PartialEq, Eq, Structural)]
pub enum RiskAlertType {
    MarginCall,
    PositionLimit,
    ExposureLimit,
    Liquidation,
    AnomalousTrading,
}

/// Risk alert severities.
#[derive(Debug, Clone, Copy, PartialEq, Eq, Structural)]
pub enum AlertSeverity {
    Info,
    Warning,
    Critical,
}

} // verus!
