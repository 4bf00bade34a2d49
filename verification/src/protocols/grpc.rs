//! `Hello.SayHello`: answers `gRPC message` whatever the name and payload.

use vstd::prelude::*;
use crate::protocols::{byte_len, lemma_reply_is_ascii, protocol_response, spec_protocol_response, Exchange};

verus! {

/// The reply message to `SayHello` and the exchange to record: the bytes of name
/// and payload in, the reply out. The reply is `gRPC message` whatever the name
/// and payload, and the call always succeeds; the one requirement is the machine
/// limit that the two lengths add up within `usize`.
pub fn say_hello_exchange(name: &str, payload: &str) -> (result: (String, Exchange))
    requires
        name.len() + payload.len() <= usize::MAX,
    ensures
        result.0@ == spec_protocol_response("gRPC"@),
        result.0@ == "gRPC message"@,
        result.1.is(
            "grpc"@,
            true,
            name.len() + payload.len(),
            byte_len(result.0@) as int,
        ),
{
    let request_bytes: usize = name.len() + payload.len();
    let reply = protocol_response("gRPC");
    proof {
        reveal_strlit("gRPC");
        reveal_strlit(" message");
        reveal_strlit("gRPC message");
        lemma_reply_is_ascii("gRPC");
        assert(reply@ =~= "gRPC message"@);
    }
    let reply_bytes = reply.as_str().len();
    let exchange = Exchange {
        protocol: String::from_str("grpc"),
        success: true,
        request_bytes: request_bytes as u64,
        response_bytes: reply_bytes as u64,
    };
    (reply, exchange)
}

} // verus!
