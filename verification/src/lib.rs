//! Fluxgate: an embeddable admission-control engine.
//!
//! Given a set of declarative rate-limiting policies and a stream of
//! requests, the engine decides per request whether each matching policy
//! admits or denies it, and if denied, how long the caller should wait
//! before retrying. All decisions are computed synchronously from
//! in-memory state plus a timestamp.

mod config;
mod error;
mod gcra;
mod key_builder;
mod limiter;
mod metrics;
mod policy;
mod snapshot;
mod text;
mod time;

pub use config::{
    AttrValue, CheckDecision, CheckRequest, CheckResult, CompiledPolicy, FluxgateConfig,
    FluxgateInit, FluxgatePolicy, PolicyAction,
};
pub use error::FluxgateError;
pub use gcra::TokenBucket;
pub use key_builder::KeyBuilder;
pub use limiter::{Fluxgate, PolicyState};
pub use metrics::Metrics;
pub use policy::{
    match_value, parse_attr_clause, parse_header_clause, MatchClause, MatchKind, MatchPattern,
    PolicyMatcher,
};
pub use time::now_ms;
