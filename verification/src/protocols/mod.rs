//! What every endpoint answers, and what each exchange contributes to telemetry.

pub mod fix;
pub mod graphql;
pub mod grpc;
pub mod rest;

use vstd::prelude::*;
use vstd::utf8::{encode_utf8, is_ascii_chars, is_ascii_chars_encode_utf8};

verus! {

/// Number of bytes of the UTF-8 encoding of `s`, what `str::len` returns.
pub open spec fn byte_len(s: Seq<char>) -> nat {
    encode_utf8(s).len()
}

/// The text every endpoint answers with: the protocol's name followed by ` message`.
pub open spec fn spec_protocol_response(protocol: Seq<char>) -> Seq<char> {
    protocol + " message"@
}

/// For an ASCII protocol name, the reply is ASCII: one byte per character.
pub proof fn lemma_reply_is_ascii(protocol: &str)
    requires
        is_ascii_chars(protocol@),
    ensures
        byte_len(spec_protocol_response(protocol@)) == protocol@.len() + 8,
{
    reveal_strlit(" message");
    let reply = spec_protocol_response(protocol@);
    assert(is_ascii_chars(reply)) by {
        assert forall|i: int| 0 <= i < reply.len() implies '\0' <= #[trigger] reply[i] <= '\u{7f}' by {
            if i >= protocol@.len() {
                assert(reply[i] == " message"@[i - protocol@.len()]);
            }
        }
    }
    is_ascii_chars_encode_utf8(reply);
}

/// Builds the reply text shared by all endpoints, such as `"REST message"`.
pub fn protocol_response(protocol: &str) -> (reply: String)
    ensures
        reply@ == spec_protocol_response(protocol@),
{
    let mut reply = protocol.to_owned();
    reply.append(" message");
    reply
}


/// What one request/response exchange contributes to telemetry; the caller
/// measures the duration and records it together with these values.
pub struct Exchange {
    pub protocol: String,
    pub success: bool,
    pub request_bytes: u64,
    pub response_bytes: u64,
}

impl Exchange {
    /// The exchange holds exactly these values.
    pub open spec fn is(
        self,
        protocol: Seq<char>,
        success: bool,
        request_bytes: int,
        response_bytes: int,
    ) -> bool {
        &&& self.protocol@ == protocol
        &&& self.success == success
        &&& self.request_bytes == request_bytes
        &&& self.response_bytes == response_bytes
    }
}

} // verus!
