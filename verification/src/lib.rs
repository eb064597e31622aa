//! Tollgate: an API gateway policy engine built as a pure, verified pipeline.
//!
//! The policy is one function, [`pipeline::decide`], over a config, a request,
//! an injected clock, and a rate limiter. It returns a [`pipeline::Decision`]
//! that is either an Allow (with the upstream and the shaped request) or a
//! Reject (with the status, an explicit reason, and the response headers).
//! Nothing here touches a socket or a clock; the wire layer hands in values.

pub mod auth;
pub mod config;
pub mod error;
pub mod fixed;
pub mod pipeline;
pub mod ratelimit;
pub mod request;
pub mod round_trip;
pub mod route;
pub mod server;
pub mod shape;
pub mod text;

pub use config::{ApiKey, Config};
pub use pipeline::{decide, Decision};
pub use ratelimit::{RateLimiter, RateOutcome};
pub use request::Request;
pub use route::{
    AuthRequirement, HostMatch, MethodMatch, PathPattern, RateLimit, Route, Segment, Shaping,
};
