//! `POST /graphql`: the `hello` query answers `GraphQL message`.

use vstd::prelude::*;
use crate::protocols::{protocol_response, spec_protocol_response, Exchange};

verus! {

/// What the `hello` field resolves to.
pub fn hello() -> (reply: String)
    ensures
        reply@ == spec_protocol_response("GraphQL"@),
{
    protocol_response("GraphQL")
}

/// The exchange to record for one GraphQL request: the query's bytes in, the
/// serialized response's bytes out (none when it could not be serialized), and
/// success exactly when the response carries no error.
pub fn graphql_exchange(query_bytes: usize, response_bytes: Option<usize>, error_count: usize) -> (exchange: Exchange)
    ensures
        exchange.is(
            "graphql"@,
            error_count == 0,
            query_bytes as int,
            match response_bytes {
                Some(n) => n as int,
                None => 0,
            },
        ),
{
    let out: usize = match response_bytes {
        Some(n) => n,
        None => 0,
    };
    Exchange {
        protocol: String::from_str("graphql"),
        success: error_count == 0,
        request_bytes: query_bytes as u64,
        response_bytes: out as u64,
    }
}

} // verus!
