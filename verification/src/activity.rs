//! Activity log records: one when a request comes in, one when its response goes out.

use vstd::prelude::*;

verus! {

/// Which side of an exchange a record describes.
#[derive(Clone, Copy, Debug, PartialEq, Eq, Structural)]
pub enum ActivityKind {
    Request,
    Response,
}

/// One line of the activity log, ready to be emitted.
pub struct ActivityEvent {
    pub kind: ActivityKind,
    pub protocol: String,
    pub details: String,
    /// Whole microseconds the response took; only responses carry it.
    pub duration_us: Option<u128>,
    /// Size of the response; only responses carry it.
    pub response_bytes: Option<usize>,
}

/// The record of an incoming request of `protocol`, described by `details`.
pub fn request(protocol: &str, details: &str) -> (event: ActivityEvent)
    ensures
        event.kind == ActivityKind::Request,
        event.protocol@ == protocol@,
        event.details@ == details@,
        event.duration_us is None,
        event.response_bytes is None,
{
    ActivityEvent {
        kind: ActivityKind::Request,
        protocol: protocol.to_owned(),
        details: details.to_owned(),
        duration_us: None,
        response_bytes: None,
    }
}

/// The record of a response of `protocol`, described by `details`, that took
/// `duration_ns` nanoseconds (logged in whole microseconds) and `response_bytes` bytes.
pub fn response(protocol: &str, details: &str, duration_ns: u128, response_bytes: usize) -> (event:
    ActivityEvent)
    ensures
        event.kind == ActivityKind::Response,
        event.protocol@ == protocol@,
        event.details@ == details@,
        event.duration_us == Some((duration_ns / 1000) as u128),
        event.response_bytes == Some(response_bytes),
{
    ActivityEvent {
        kind: ActivityKind::Response,
        protocol: protocol.to_owned(),
        details: details.to_owned(),
        duration_us: Some(duration_ns / 1000),
        response_bytes: Some(response_bytes),
    }
}

} // verus!
