//! Error taxonomy for the trading platform, with the HTTP status and the
//! stable error code each kind maps to.

use vstd::prelude::*;

verus! {

/// Trading engine errors.
#[derive(Debug)]
pub enum TradingError {
    OrderNotFound(String),
    InsufficientBalance { required: String, available: String },
    InvalidOrder(String),
    OrderRejected(String),
    SymbolNotFound(String),
    RateLimitExceeded,
    MarketClosed,
    SelfTradePrevention,
}

/// Data pipeline errors.
#[derive(Debug)]
pub enum PipelineError {
    Kafka(String),
    Redis(String),
    Serialization(String),
    ConnectionLost(String),
    Timeout(u64),
}

/// Exchange gateway errors.
#[derive(Debug)]
pub enum ExchangeError {
    ConnectionFailed(String),
    AuthenticationFailed(String),
    ApiError { code: i32, message: String },
    RateLimited,
    OrderRejected(String),
    UnsupportedOperation(String),
}

/// Database errors.
#[derive(Debug)]
pub enum DatabaseError {
    QueryFailed(String),
    PoolExhausted,
    TransactionFailed(String),
    ConstraintViolation(String),
    SerializationConflict,
}

/// Generic service error that wraps all specific errors.
#[derive(Debug)]
pub enum ServiceError {
    Trading(TradingError),
    Pipeline(PipelineError),
    Exchange(ExchangeError),
    Database(DatabaseError),
    Internal(String),
    Configuration(String),
}

impl ServiceError {
    /// The HTTP status code for this error.
    pub fn status_code(&self) -> (r: u16)
        ensures
            r == self.spec_status_code(),
    {
        match self {
            ServiceError::Trading(TradingError::OrderNotFound(_)) => 404,
            ServiceError::Trading(TradingError::SymbolNotFound(_)) => 404,
            ServiceError::Trading(TradingError::InsufficientBalance { .. }) => 400,
            ServiceError::Trading(TradingError::InvalidOrder(_)) => 400,
            ServiceError::Trading(TradingError::RateLimitExceeded) => 429,
            ServiceError::Trading(_) => 400,
            ServiceError::Exchange(ExchangeError::RateLimited) => 429,
            ServiceError::Exchange(ExchangeError::AuthenticationFailed(_)) => 401,
            ServiceError::Exchange(_) => 502,
            ServiceError::Pipeline(_) => 503,
            ServiceError::Database(_) => 503,
            ServiceError::Internal(_) => 500,
            ServiceError::Configuration(_) => 500,
        }
    }

    pub open spec fn spec_status_code(&self) -> u16 {
        match self {
            ServiceError::Trading(t) => match t {
                TradingError::OrderNotFound(_) => 404,
                TradingError::SymbolNotFound(_) => 404,
                TradingError::InsufficientBalance { .. } => 400,
                TradingError::InvalidOrder(_) => 400,
                TradingError::RateLimitExceeded => 429,
                _ => 400,
            },
            ServiceError::Exchange(e) => match e {
                ExchangeError::RateLimited => 429,
                ExchangeError::AuthenticationFailed(_) => 401,
                _ => 502,
            },
            ServiceError::Pipeline(_) => 503,
            ServiceError::Database(_) => 503,
            ServiceError::Internal(_) => 500,
            ServiceError::Configuration(_) => 500,
        }
    }

    /// The stable error code for API responses.
    pub fn error_code(&self) -> (r: &'static str)
        ensures
            r@ == self.spec_error_code(),
    {
        match self {
            ServiceError::Trading(TradingError::OrderNotFound(_)) => "ORDER_NOT_FOUND",
            ServiceError::Trading(TradingError::InsufficientBalance { .. }) => {
                "INSUFFICIENT_BALANCE"
            },
            ServiceError::Trading(TradingError::InvalidOrder(_)) => "INVALID_ORDER",
            ServiceError::Trading(TradingError::RateLimitExceeded) => "RATE_LIMIT_EXCEEDED",
            ServiceError::Trading(_) => "TRADING_ERROR",
            ServiceError::Exchange(_) => "EXCHANGE_ERROR",
            ServiceError::Pipeline(_) => "PIPELINE_ERROR",
            ServiceError::Database(_) => "DATABASE_ERROR",
            ServiceError::Internal(_) => "INTERNAL_ERROR",
            ServiceError::Configuration(_) => "CONFIG_ERROR",
        }
    }

    pub open spec fn spec_error_code(&self) -> Seq<char> {
        match self {
            ServiceError::Trading(t) => match t {
                TradingError::OrderNotFound(_) => "ORDER_NOT_FOUND"@,
                TradingError::InsufficientBalance { .. } => "INSUFFICIENT_BALANCE"@,
                TradingError::InvalidOrder(_) => "INVALID_ORDER"@,
                TradingError::RateLimitExceeded => "RATE_LIMIT_EXCEEDED"@,
                _ => "TRADING_ERROR"@,
            },
            ServiceError::Exchange(_) => "EXCHANGE_ERROR"@,
            ServiceError::Pipeline(_) => "PIPELINE_ERROR"@,
            ServiceError::Database(_) => "DATABASE_ERROR"@,
            ServiceError::Internal(_) => "INTERNAL_ERROR"@,
            ServiceError::Configuration(_) => "CONFIG_ERROR"@,
        }
    }
}

} // verus!
