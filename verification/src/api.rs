//! Intake validation: translates external submissions into canonical
//! orders, rejecting malformed inputs with a typed error.
//!
//! The unverified HTTP layer parses requests into `SubmitOrderRequest`
//! values and hands them here; nothing in this module touches the book.

use vstd::prelude::*;

use crate::decimal::spec_parse_units;
use crate::types::{
    first_dash, upper_of, Order, OrderStatus, OrderType, Side, Symbol, TimeInForce,
};

verus! {

/// An order submission as the intake surface receives it. Quantities and
/// prices arrive as decimal texts.
#[derive(Debug, Clone)]
pub struct SubmitOrderRequest {
    pub client_order_id: Option<String>,
    pub symbol: String,
    pub side: Side,
    pub order_type: OrderType,
    pub quantity: String,
    pub price: Option<String>,
    pub time_in_force: Option<TimeInForce>,
    pub user_id: u128,
}

/// A typed intake error: a human-readable message and a stable code.
#[derive(Debug, Clone)]
pub struct ApiError {
    pub error: String,
    pub code: String,
}

/// Query parameters of a cancel request.
#[derive(Debug, Clone)]
pub struct CancelQuery {
    pub base: Option<String>,
    pub quote: Option<String>,
}

/// Query parameters of a depth request.
#[derive(Debug, Clone)]
pub struct OrderBookQuery {
    pub levels: Option<usize>,
}

/// Health probe response.
#[derive(Debug, Clone)]
pub struct HealthResponse {
    pub status: &'static str,
    pub version: &'static str,
}

/// Service information response.
#[derive(Debug)]
pub struct InfoResponse {
    pub name: &'static str,
    pub version: &'static str,
    pub symbols: Vec<String>,
}

/// Whether the text holds exactly one `-`.
pub open spec fn one_dash(s: Seq<char>) -> bool {
    &&& first_dash(s) < s.len()
    &&& forall|k: int| first_dash(s) < k < s.len() ==> s[k] != '-'
}

/// The code of the first intake rule the request breaks, if any: quantity
/// not a positive exact decimal at the engine's scale; a price text present
/// but not such a decimal; a limit order without a price; a stop order,
/// whose triggering is not defined here; a symbol not of the `BASE-QUOTE`
/// shape.
pub open spec fn spec_validate_err(req: SubmitOrderRequest, scale: u32) -> Option<Seq<char>> {
    if spec_parse_units(req.quantity@, scale) is None || spec_parse_units(
        req.quantity@,
        scale,
    ).unwrap() == 0 {
        Some("INVALID_QUANTITY"@)
    } else if req.price is Some && (spec_parse_units(req.price.unwrap()@, scale) is None
        || spec_parse_units(req.price.unwrap()@, scale).unwrap() == 0) {
        Some("INVALID_PRICE"@)
    } else if req.order_type == OrderType::Limit && req.price is None {
        Some("PRICE_REQUIRED"@)
    } else if req.order_type == OrderType::StopLimit || req.order_type == OrderType::StopMarket {
        Some("UNSUPPORTED_OPERATION"@)
    } else if !one_dash(req.symbol@) {
        Some("INVALID_SYMBOL"@)
    } else {
        Option::None
    }
}

/// Validates a submission into a canonical order.
///
/// Returns `Ok` exactly when no intake rule rejects the request; the error
/// otherwise carries the code of the first rule broken. The order is
/// `Pending`, unfilled, sequence-less, with a fresh id, the uppercased
/// `BASE-QUOTE` symbol, quantity and price in integer units, GTC when no
/// time in force was given, and a price exactly for limit orders.
pub fn validate_order(req: &SubmitOrderRequest, scale: u32) -> (r: Result<Order, ApiError>)
    requires
        scale <= 19,
    ensures
        r is Ok <==> spec_validate_err(*req, scale) is None,
        r is Err ==> r->Err_0.code@ == spec_validate_err(*req, scale).unwrap(),
        r is Ok ==> ({
            let o = r->Ok_0;
            &&& o.user_id == req.user_id
            &&& o.side == req.side
            &&& o.order_type == req.order_type
            &&& o.time_in_force == (if req.time_in_force is Some {
                req.time_in_force.unwrap()
            } else {
                TimeInForce::GTC
            })
            &&& o.status == OrderStatus::Pending
            &&& o.quantity == spec_parse_units(req.quantity@, scale).unwrap()
            &&& o.quantity > 0
            &&& o.filled_quantity == 0
            &&& o.remaining_quantity == o.quantity
            &&& o.fill_value == 0
            &&& o.sequence == 0
            &&& o.stop_price is None
            &&& (o.order_type == OrderType::Limit <==> o.price is Some)
            &&& o.price is Some ==> o.price.unwrap() == spec_parse_units(
                req.price.unwrap()@,
                scale,
            ).unwrap() && o.price.unwrap() > 0
            &&& o.symbol@ == upper_of(req.symbol@.subrange(0, first_dash(req.symbol@)))
                + seq!['-'] + upper_of(
                req.symbol@.subrange(first_dash(req.symbol@) + 1, req.symbol@.len() as int),
            )
            &&& req.client_order_id is Some ==> o.client_order_id
                == req.client_order_id.unwrap()
            &&& req.client_order_id is None ==> o.client_order_id@.len() == 36
        }),
{
    let qty_parse = crate::decimal::parse_units(req.quantity.as_str(), scale);
    let quantity = match qty_parse {
        Some(q) => {
            if q == 0 {
                return Err(ApiError {
                    error: "Invalid quantity".to_owned(),
                    code: "INVALID_QUANTITY".to_owned(),
                });
            }
            q
        },
        None => {
            return Err(ApiError {
                error: "Invalid quantity".to_owned(),
                code: "INVALID_QUANTITY".to_owned(),
            });
        },
    };
    let price: Option<u64> = match &req.price {
        Some(p) => match crate::decimal::parse_units(p.as_str(), scale) {
            Some(v) => {
                if v == 0 {
                    return Err(ApiError {
                        error: "Invalid price".to_owned(),
                        code: "INVALID_PRICE".to_owned(),
                    });
                }
                Some(v)
            },
            None => {
                return Err(ApiError {
                    error: "Invalid price".to_owned(),
                    code: "INVALID_PRICE".to_owned(),
                });
            },
        },
        None => None,
    };
    if req.order_type == OrderType::Limit && price.is_none() {
        return Err(ApiError {
            error: "Limit order requires price".to_owned(),
            code: "PRICE_REQUIRED".to_owned(),
        });
    }
    if req.order_type == OrderType::StopLimit || req.order_type == OrderType::StopMarket {
        return Err(ApiError {
            error: "Stop orders are not supported".to_owned(),
            code: "UNSUPPORTED_OPERATION".to_owned(),
        });
    }
    let symbol = match split_symbol(req.symbol.as_str()) {
        Some(s) => s,
        None => {
            return Err(ApiError {
                error: "Invalid symbol format".to_owned(),
                code: "INVALID_SYMBOL".to_owned(),
            });
        },
    };
    let id = crate::ident::fresh_id();
    let client_order_id = match &req.client_order_id {
        Some(c) => c.clone(),
        None => crate::ident::id_text(id),
    };
    let now = crate::clock::now_millis();
    Ok(Order {
        id,
        client_order_id,
        user_id: req.user_id,
        symbol,
        side: req.side,
        order_type: req.order_type,
        time_in_force: match req.time_in_force {
            Some(t) => t,
            None => TimeInForce::GTC,
        },
        status: OrderStatus::Pending,
        price: if matches!(req.order_type, OrderType::Limit) {
            price
        } else {
            None
        },
        stop_price: None,
        quantity,
        filled_quantity: 0,
        remaining_quantity: quantity,
        fill_value: 0,
        sequence: 0,
        created_at: now,
        updated_at: now,
    })
}

/// Splits a `BASE-QUOTE` text at its single `-` into a canonical symbol;
/// nothing when the text does not hold exactly one `-`.
fn split_symbol(s: &str) -> (r: Option<Symbol>)
    ensures
        r is Some <==> one_dash(s@),
        r is Some ==> r.unwrap()@ == upper_of(s@.subrange(0, first_dash(s@))) + seq!['-']
            + upper_of(s@.subrange(first_dash(s@) + 1, s@.len() as int)),
{
    let n: usize = s.unicode_len();
    let mut i: usize = 0;
    while i < n
        invariant
            i <= n,
            n == s@.len(),
            forall|k: int| 0 <= k < i ==> s@[k] != '-',
        decreases n - i,
    {
        if s.get_char(i) == '-' {
            proof {
                crate::types::lemma_first_dash(s@, i as int);
            }
            let mut j: usize = i + 1;
            while j < n
                invariant
                    i < j <= n,
                    n == s@.len(),
                    first_dash(s@) == i as int,
                    forall|k: int| i < k < j ==> s@[k] != '-',
                decreases n - j,
            {
                if s.get_char(j) == '-' {
                    return None;
                }
                j = j + 1;
            }
            let base = crate::types::substring_copy(s, 0, i);
            let quote = crate::types::substring_copy(s, i + 1, n);
            return Some(Symbol::new(base.as_str(), quote.as_str()));
        }
        i = i + 1;
    }
    proof {
        crate::types::lemma_first_dash(s@, n as int);
    }
    None
}

} // verus!
