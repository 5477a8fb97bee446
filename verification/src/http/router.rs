use crate::http::auth::AuthMiddleware;
use vstd::prelude::*;

verus! {

/// The groups of routes the server exposes.
#[derive(Debug, Clone, Copy, PartialEq, Eq, Structural)]
pub enum RouteGroup {
    /// `POST /callback/{identity}`
    Callback,
    /// `GET /metrics` and `GET /metrics/{identity}`
    Metrics,
    /// `GET /health`
    Health,
}

/// Which routes sit behind the bearer token: callbacks whenever a token is
/// configured, metrics only when they are also protected, health never.
pub open spec fn guarded(group: RouteGroup, token_configured: bool, protect_metrics: bool) -> bool {
    match group {
        RouteGroup::Callback => token_configured,
        RouteGroup::Metrics => token_configured && protect_metrics,
        RouteGroup::Health => false,
    }
}

/// Whether a group of routes requires the bearer token.
pub fn requires_token(group: RouteGroup, auth: &AuthMiddleware, protect_metrics: bool) -> (b: bool)
    ensures
        b == guarded(group, auth.token() is Some, protect_metrics),
{
    match group {
        RouteGroup::Callback => auth.is_enabled(),
        RouteGroup::Metrics => protect_metrics && auth.is_enabled(),
        RouteGroup::Health => false,
    }
}

/// The largest request body accepted, in bytes.
pub const MAX_BODY_BYTES: usize = 1024;

/// The headers set on every response, as (name, value): no MIME sniffing,
/// no framing, no caching.
pub open spec fn security_header_list() -> Seq<(Seq<char>, Seq<char>)> {
    seq![
        ("x-content-type-options"@, "nosniff"@),
        ("x-frame-options"@, "DENY"@),
        ("cache-control"@, "no-store"@),
    ]
}

/// The headers to set on every response.
pub fn security_headers() -> (r: Vec<(&'static str, &'static str)>)
    ensures
        r@.len() == security_header_list().len(),
        forall|i: int|
            0 <= i < r@.len() ==> (#[trigger] r@[i].0@, r@[i].1@) == security_header_list()[i],
{
    let mut r: Vec<(&'static str, &'static str)> = Vec::new();
    r.push(("x-content-type-options", "nosniff"));
    r.push(("x-frame-options", "DENY"));
    r.push(("cache-control", "no-store"));
    r
}

} // verus!
