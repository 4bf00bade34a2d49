//! Verified core of a small multi-protocol server: FIX framing and session
//! decisions, per-protocol telemetry, and the replies of the REST, gRPC and
//! GraphQL endpoints.

pub mod activity;
pub mod names;
pub mod protocols;
pub mod telemetry;

use vstd::prelude::*;
use crate::protocols::Exchange;

verus! {

/// The port of the gRPC listener: the one right after the HTTP port.
pub fn grpc_port(http_port: u16) -> (port: u16)
    requires
        http_port < u16::MAX,
    ensures
        port == http_port + 1,
{
    http_port + 1
}

/// The port of the FIX listener: two after the HTTP port.
pub fn fix_port(http_port: u16) -> (port: u16)
    requires
        http_port < u16::MAX - 1,
    ensures
        port == http_port + 2,
{
    http_port + 2
}

/// The answer to `GET /health` and its exchange: no request bytes, two bytes out.
pub fn health_exchange() -> (result: (String, Exchange))
    ensures
        result.0@ == "ok"@,
        result.1.is("health"@, true, 0, 2),
{
    let exchange = Exchange {
        protocol: String::from_str("health"),
        success: true,
        request_bytes: 0,
        response_bytes: 2,
    };
    (String::from_str("ok"), exchange)
}

} // verus!
