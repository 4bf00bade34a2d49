//! `GET /hello`: answers `REST message` whatever the payload.

use vstd::prelude::*;
use crate::protocols::{byte_len, lemma_reply_is_ascii, protocol_response, spec_protocol_response, Exchange};

verus! {

/// The reply to `GET /hello` with the optional `payload` query parameter, and the
/// exchange to record: the payload's bytes (none when it is absent) in, the reply out.
pub fn hello_exchange(payload: Option<&str>) -> (result: (String, Exchange))
    ensures
        result.0@ == spec_protocol_response("REST"@),
        result.0@ == "REST message"@,
        result.1.is(
            "rest"@,
            true,
            match payload {
                Some(p) => p.len() as int,
                None => 0,
            },
            byte_len(result.0@) as int,
        ),
{
    let request_bytes: usize = match payload {
        Some(p) => p.len(),
        None => 0,
    };
    let reply = protocol_response("REST");
    proof {
        reveal_strlit("REST");
        reveal_strlit(" message");
        reveal_strlit("REST message");
        lemma_reply_is_ascii("REST");
        assert(reply@ =~= "REST message"@);
    }
    let reply_bytes = reply.as_str().len();
    let exchange = Exchange {
        protocol: String::from_str("rest"),
        success: true,
        request_bytes: request_bytes as u64,
        response_bytes: reply_bytes as u64,
    };
    (reply, exchange)
}

} // verus!
