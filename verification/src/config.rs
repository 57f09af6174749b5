//! Configuration: recognized options, their defaults, and loading from a
//! list of key/value pairs.
//!
//! The unverified edge reads the environment into pairs; `load` picks each
//! recognized key's first value, applies defaults, parses the numeric
//! options exactly, and rejects a configuration that lacks a required
//! endpoint or holds an unparsable number.

use vstd::prelude::*;

use crate::decimal::spec_parse_units;
use crate::error::ServiceError;

verus! {

/// Matching engine configuration.
#[derive(Debug, Clone)]
pub struct Config {
    pub host: String,
    pub port: u16,
    pub log_level: String,
    pub database_url: String,
    pub database_pool_size: u32,
    pub redis_url: String,
    pub kafka_brokers: String,
    pub kafka_group_id: String,
    /// Unused in the synchronous design; retained for compatibility.
    pub matching_interval_us: u64,
    /// Per-book capacity ceiling.
    pub max_orders_per_symbol: u64,
    pub otlp_endpoint: Option<String>,
    pub metrics_port: u16,
}

pub fn default_host() -> (r: String)
    ensures
        r@ == "0.0.0.0"@,
{
    "0.0.0.0".to_owned()
}

pub fn default_port() -> (r: u16)
    ensures
        r == 8080,
{
    8080
}

pub fn default_log_level() -> (r: String)
    ensures
        r@ == "info"@,
{
    "info".to_owned()
}

pub fn default_pool_size() -> (r: u32)
    ensures
        r == 20,
{
    20
}

pub fn default_kafka_group() -> (r: String)
    ensures
        r@ == "matching-engine"@,
{
    "matching-engine".to_owned()
}

pub fn default_matching_interval() -> (r: u64)
    ensures
        r == 100,
{
    100
}

pub fn default_max_orders_per_symbol() -> (r: u64)
    ensures
        r == 100000,
{
    100000
}

pub fn default_metrics_port() -> (r: u16)
    ensures
        r == 9090,
{
    9090
}

/// The first value bound to the key, if any.
pub open spec fn assoc(ps: Seq<(String, String)>, key: Seq<char>) -> Option<Seq<char>>
    decreases ps.len(),
{
    if ps.len() == 0 {
        Option::None
    } else if ps[0].0@ == key {
        Some(ps[0].1@)
    } else {
        assoc(ps.drop_first(), key)
    }
}

/// The value of a numeric option: its default when absent, its exactly
/// parsed integer when present, nothing when unparsable.
pub open spec fn num_field(ps: Seq<(String, String)>, key: Seq<char>, default: u64) -> Option<
    u64,
> {
    match assoc(ps, key) {
        Option::None => Some(default),
        Some(t) => spec_parse_units(t, 0),
    }
}

/// Everything `load` demands of the pairs: the three endpoints are present
/// and every numeric option present parses and fits its type.
pub open spec fn load_ok(ps: Seq<(String, String)>) -> bool {
    &&& assoc(ps, "database_url"@) is Some
    &&& assoc(ps, "redis_url"@) is Some
    &&& assoc(ps, "kafka_brokers"@) is Some
    &&& num_field(ps, "port"@, 8080) is Some && num_field(ps, "port"@, 8080).unwrap() <= u16::MAX
    &&& num_field(ps, "database_pool_size"@, 20) is Some && num_field(
        ps,
        "database_pool_size"@,
        20,
    ).unwrap() <= u32::MAX
    &&& num_field(ps, "matching_interval_us"@, 100) is Some
    &&& num_field(ps, "max_orders_per_symbol"@, 100000) is Some
    &&& num_field(ps, "metrics_port"@, 9090) is Some && num_field(
        ps,
        "metrics_port"@,
        9090,
    ).unwrap() <= u16::MAX
}

fn lookup(pairs: &Vec<(String, String)>, key: &str) -> (r: Option<String>)
    ensures
        r is Some <==> assoc(pairs@, key@) is Some,
        r is Some ==> r.unwrap()@ == assoc(pairs@, key@).unwrap(),
{
    let k: String = key.to_owned();
    let n = pairs.len();
    let mut i: usize = 0;
    proof {
        assert(pairs@.skip(0) =~= pairs@);
    }
    while i < n
        invariant
            i <= n,
            n == pairs@.len(),
            k@ == key@,
            assoc(pairs@, key@) == assoc(pairs@.skip(i as int), key@),
        decreases n - i,
    {
        proof {
            assert(pairs@.skip(i as int)[0] == pairs@[i as int]);
            assert(pairs@.skip(i as int).drop_first() =~= pairs@.skip(i as int + 1));
        }
        if pairs[i].0 == k {
            proof {
                assert(pairs@[i as int].0@ == key@);
                assert(assoc(pairs@.skip(i as int), key@) == Some(pairs@[i as int].1@));
            }
            return Some(pairs[i].1.clone());
        }
        i = i + 1;
    }
    proof {
        assert(pairs@.skip(n as int) =~= Seq::<(String, String)>::empty());
    }
    None
}

/// A numeric option: its default when absent, its exact integer value when
/// present and parsable.
fn num_lookup(pairs: &Vec<(String, String)>, key: &str, default: u64) -> (r: Option<u64>)
    ensures
        r == num_field(pairs@, key@, default),
{
    match lookup(pairs, key) {
        Some(t) => crate::decimal::parse_units(t.as_str(), 0),
        None => Some(default),
    }
}

impl Config {
    /// Loads the configuration from key/value pairs, with defaults for the
    /// optional fields. Fails with a configuration error exactly when a
    /// required endpoint is missing or a numeric option does not parse or
    /// fit.
    pub fn load(pairs: &Vec<(String, String)>) -> (r: Result<Config, ServiceError>)
        ensures
            r is Ok <==> load_ok(pairs@),
            r is Err ==> r->Err_0 is Configuration,
            r is Ok ==> ({
                let c = r->Ok_0;
                &&& c.host@ == (if assoc(pairs@, "host"@) is Some {
                    assoc(pairs@, "host"@).unwrap()
                } else {
                    "0.0.0.0"@
                })
                &&& c.port == num_field(pairs@, "port"@, 8080).unwrap()
                &&& c.log_level@ == (if assoc(pairs@, "log_level"@) is Some {
                    assoc(pairs@, "log_level"@).unwrap()
                } else {
                    "info"@
                })
                &&& c.database_url@ == assoc(pairs@, "database_url"@).unwrap()
                &&& c.database_pool_size == num_field(pairs@, "database_pool_size"@, 20).unwrap()
                &&& c.redis_url@ == assoc(pairs@, "redis_url"@).unwrap()
                &&& c.kafka_brokers@ == assoc(pairs@, "kafka_brokers"@).unwrap()
                &&& c.kafka_group_id@ == (if assoc(pairs@, "kafka_group_id"@) is Some {
                    assoc(pairs@, "kafka_group_id"@).unwrap()
                } else {
                    "matching-engine"@
                })
                &&& c.matching_interval_us == num_field(
                    pairs@,
                    "matching_interval_us"@,
                    100,
                ).unwrap()
                &&& c.max_orders_per_symbol == num_field(
                    pairs@,
                    "max_orders_per_symbol"@,
                    100000,
                ).unwrap()
                &&& (c.otlp_endpoint is Some <==> assoc(pairs@, "otlp_endpoint"@) is Some)
                &&& c.metrics_port == num_field(pairs@, "metrics_port"@, 9090).unwrap()
            }),
    {
        let database_url = match lookup(pairs, "database_url") {
            Some(v) => v,
            None => {
                return Err(ServiceError::Configuration("database_url is required".to_owned()));
            },
        };
        let redis_url = match lookup(pairs, "redis_url") {
            Some(v) => v,
            None => {
                return Err(ServiceError::Configuration("redis_url is required".to_owned()));
            },
        };
        let kafka_brokers = match lookup(pairs, "kafka_brokers") {
            Some(v) => v,
            None => {
                return Err(ServiceError::Configuration("kafka_brokers is required".to_owned()));
            },
        };
        let port_v = match num_lookup(pairs, "port", 8080) {
            Some(v) => v,
            None => {
                return Err(ServiceError::Configuration("port is not a number".to_owned()));
            },
        };
        if port_v > u16::MAX as u64 {
            return Err(ServiceError::Configuration("port is out of range".to_owned()));
        }
        let pool_v = match num_lookup(pairs, "database_pool_size", 20) {
            Some(v) => v,
            None => {
                return Err(ServiceError::Configuration(
                    "database_pool_size is not a number".to_owned(),
                ));
            },
        };
        if pool_v > u32::MAX as u64 {
            return Err(ServiceError::Configuration(
                "database_pool_size is out of range".to_owned(),
            ));
        }
        let interval_v = match num_lookup(pairs, "matching_interval_us", 100) {
            Some(v) => v,
            None => {
                return Err(ServiceError::Configuration(
                    "matching_interval_us is not a number".to_owned(),
                ));
            },
        };
        let cap_v = match num_lookup(pairs, "max_orders_per_symbol", 100000) {
            Some(v) => v,
            None => {
                return Err(ServiceError::Configuration(
                    "max_orders_per_symbol is not a number".to_owned(),
                ));
            },
        };
        let metrics_v = match num_lookup(pairs, "metrics_port", 9090) {
            Some(v) => v,
            None => {
                return Err(ServiceError::Configuration(
                    "metrics_port is not a number".to_owned(),
                ));
            },
        };
        if metrics_v > u16::MAX as u64 {
            return Err(ServiceError::Configuration("metrics_port is out of range".to_owned()));
        }
        let host = match lookup(pairs, "host") {
            Some(v) => v,
            None => default_host(),
        };
        let log_level = match lookup(pairs, "log_level") {
            Some(v) => v,
            None => default_log_level(),
        };
        let kafka_group_id = match lookup(pairs, "kafka_group_id") {
            Some(v) => v,
            None => default_kafka_group(),
        };
        let otlp_endpoint = lookup(pairs, "otlp_endpoint");
        Ok(Config {
            host,
            port: port_v as u16,
            log_level,
            database_url,
            database_pool_size: pool_v as u32,
            redis_url,
            kafka_brokers,
            kafka_group_id,
            matching_interval_us: interval_v,
            max_orders_per_symbol: cap_v,
            otlp_endpoint,
            metrics_port: metrics_v as u16,
        })
    }
}

} // verus!
