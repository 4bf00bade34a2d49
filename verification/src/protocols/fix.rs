//! FIX over TCP: message framing with body length and checksum, heartbeat
//! recognition, and the decisions of one connection.

use vstd::prelude::*;
use crate::protocols::Exchange;
use vstd::arithmetic::div_mod::lemma_add_mod_noop;

verus! {

/// Byte that ends every FIX field.
pub const SOH: u8 = 1u8;

/// A byte that closes a field when a message is split into fields.
pub open spec fn is_separator(b: u8) -> bool {
    b == 1u8 || b == 10u8
}

/// `field` occupies `msg[i..i + field.len()]`, with a separator or the end of the
/// message on each side: it is one of the pieces that splitting `msg` at every
/// separator yields.
pub open spec fn field_at(msg: Seq<u8>, field: Seq<u8>, i: int) -> bool {
    &&& 0 <= i
    &&& i + field.len() <= msg.len()
    &&& msg.subrange(i, i + field.len()) == field
    &&& (i == 0 || is_separator(msg[i - 1]))
    &&& (i + field.len() == msg.len() || is_separator(msg[i + field.len()]))
}

/// Splitting `msg` at every separator yields a piece equal to `field`.
pub open spec fn has_field(msg: Seq<u8>, field: Seq<u8>) -> bool {
    exists|i: int| field_at(msg, field, i)
}

/// The field `35=0`: message type Heartbeat.
pub open spec fn heartbeat_field() -> Seq<u8> {
    seq![51u8, 53u8, 61u8, 48u8] // "35=0"
}

/// Decimal digits of `n` in ASCII, most significant first, without leading zeros.
pub open spec fn decimal(n: nat) -> Seq<u8>
    decreases n,
{
    if n < 10 {
        seq![(48 + n) as u8]
    } else {
        decimal(n / 10) + seq![(48 + n % 10) as u8]
    }
}

/// Sum of all bytes, as a natural number.
pub open spec fn byte_sum(s: Seq<u8>) -> nat
    decreases s.len(),
{
    if s.len() == 0 {
        0
    } else {
        byte_sum(s.drop_last()) + s.last() as nat
    }
}

/// A checksum below 1000 written with exactly three digits, zero padded.
pub open spec fn three_digits(c: nat) -> Seq<u8> {
    seq![(48 + c / 100) as u8, (48 + (c / 10) % 10) as u8, (48 + c % 10) as u8]
}

/// `8=FIX.4.4<SOH>9=`: the BeginString field and the tag of BodyLength.
pub open spec fn begin_string() -> Seq<u8> {
    seq![56u8, 61u8, 70u8, 73u8, 88u8, 46u8, 52u8, 46u8, 52u8, 1u8, 57u8, 61u8]
}

/// `8=FIX.4.4<SOH>9=<body length><SOH>`.
pub open spec fn message_header(body_len: nat) -> Seq<u8> {
    begin_string() + decimal(body_len) + seq![1u8]
}

/// The checksum of a frame: the sum of its bytes modulo 256.
pub open spec fn checksum(frame: Seq<u8>) -> nat {
    byte_sum(frame) % 256
}

/// `10=<checksum, three digits><SOH><LF>`.
pub open spec fn message_trailer(sum: nat) -> Seq<u8> {
    seq![49u8, 48u8, 61u8] + three_digits(sum) + seq![1u8, 10u8]
}

/// A whole FIX message around `body`: header with the body's length, the body,
/// and a trailer whose checksum covers header and body.
pub open spec fn framed(body: Seq<u8>) -> Seq<u8> {
    let frame = message_header(body.len()) + body;
    frame + message_trailer(checksum(frame))
}

fn decimal_digits(n: usize) -> (digits: Vec<u8>)
    ensures
        digits@ == decimal(n as nat),
    decreases n,
{
    if n < 10 {
        let d: u8 = n as u8;
        let mut v: Vec<u8> = Vec::new();
        v.push(48u8 + d);
        v
    } else {
        let mut v = decimal_digits(n / 10);
        let d: u8 = (n % 10) as u8;
        v.push(48u8 + d);
        v
    }
}

proof fn lemma_byte_sum_take_step(s: Seq<u8>, i: int)
    requires
        0 <= i < s.len(),
    ensures
        byte_sum(s.take(i + 1)) == byte_sum(s.take(i)) + s[i] as nat,
{
    assert(s.take(i + 1).drop_last() =~= s.take(i));
}

/// Wraps `body` into a FIX message: `8=FIX.4.4`, the body length, the body, and
/// the checksum field.
pub fn build_message(body: &[u8]) -> (message: Vec<u8>)
    ensures
        message@ == framed(body@),
{
    // "8=FIX.4.4" SOH "9="
    let mut message: Vec<u8> = vec![56u8, 61u8, 70u8, 73u8, 88u8, 46u8, 52u8, 46u8, 52u8, SOH, 57u8, 61u8];
    assert(message@ == begin_string());
    let digits = decimal_digits(body.len());
    let mut k: usize = 0;
    while k < digits.len()
        invariant
            0 <= k <= digits@.len(),
            message@ == begin_string() + digits@.take(k as int),
        decreases digits@.len() - k,
    {
        message.push(digits[k]);
        assert(digits@.take(k + 1) =~= digits@.take(k as int).push(digits@[k as int]));
        k = k + 1;
    }
    assert(digits@.take(digits@.len() as int) =~= digits@);
    message.push(SOH);
    let ghost header = message@;
    assert(header == message_header(body@.len()));
    let mut j: usize = 0;
    while j < body.len()
        invariant
            0 <= j <= body@.len(),
            message@ == header + body@.take(j as int),
        decreases body@.len() - j,
    {
        message.push(body[j]);
        assert(body@.take(j + 1) =~= body@.take(j as int).push(body@[j as int]));
        j = j + 1;
    }
    assert(body@.take(body@.len() as int) =~= body@);
    let ghost frame = message@;
    let mut sum: u32 = 0;
    let mut i: usize = 0;
    while i < message.len()
        invariant
            message@ == frame,
            0 <= i <= frame.len(),
            sum < 256,
            sum as nat == byte_sum(frame.take(i as int)) % 256,
        decreases frame.len() - i,
    {
        let b: u32 = message[i] as u32;
        proof {
            lemma_byte_sum_take_step(frame, i as int);
            lemma_add_mod_noop(byte_sum(frame.take(i as int)) as int, b as int, 256);
        }
        sum = (sum + b) % 256;
        i = i + 1;
    }
    assert(frame.take(frame.len() as int) =~= frame);
    // "10="
    message.push(49u8);
    message.push(48u8);
    message.push(61u8);
    let hundreds: u8 = (sum / 100) as u8;
    let tens: u8 = ((sum / 10) % 10) as u8;
    let ones: u8 = (sum % 10) as u8;
    message.push(48u8 + hundreds);
    message.push(48u8 + tens);
    message.push(48u8 + ones);
    message.push(SOH);
    message.push(10u8);
    assert(message@ =~= framed(body@));
    message
}


fn is_separator_byte(b: u8) -> (r: bool)
    ensures
        r == is_separator(b),
{
    b == SOH || b == 10u8
}

/// Whether splitting `message` at every SOH and LF byte yields the field `35=0`
/// (MsgType Heartbeat).
pub fn is_heartbeat(message: &[u8]) -> (heartbeat: bool)
    ensures
        heartbeat == has_field(message@, heartbeat_field()),
{
    let len = message.len();
    if len < 4 {
        assert forall|i: int| !field_at(message@, heartbeat_field(), i) by {}
        return false;
    }
    let mut i: usize = 0;
    while i <= len - 4
        invariant
            len == message@.len(),
            4 <= len,
            i <= len - 3,
            forall|j: int| 0 <= j < i ==> !field_at(message@, heartbeat_field(), j),
        decreases len - i,
    {
        // "35=0"
        let matches = message[i] == 51u8 && message[i + 1] == 53u8 && message[i + 2] == 61u8
            && message[i + 3] == 48u8;
        let opens = i == 0 || is_separator_byte(message[i - 1]);
        let closes = i + 4 == len || is_separator_byte(message[i + 4]);
        if matches && opens && closes {
            assert(message@.subrange(i as int, i + 4) =~= heartbeat_field());
            assert(field_at(message@, heartbeat_field(), i as int));
            return true;
        }
        proof {
            if field_at(message@, heartbeat_field(), i as int) {
                let w = message@.subrange(i as int, i + 4);
                assert(w[0] == message@[i as int]);
                assert(w[1] == message@[i + 1]);
                assert(w[2] == message@[i + 2]);
                assert(w[3] == message@[i + 3]);
            }
        }
        i = i + 1;
    }
    false
}


/// Body of a Heartbeat: `35=0<SOH>`.
pub open spec fn heartbeat_body() -> Seq<u8> {
    seq![51u8, 53u8, 61u8, 48u8, 1u8]
}

/// Body of a Test Request asking the peer for a heartbeat:
/// `35=1<SOH>112=heartbeat-timeout<SOH>`.
pub open spec fn test_request_body() -> Seq<u8> {
    seq![
        51u8, 53u8, 61u8, 49u8, 1u8, 49u8, 49u8, 50u8, 61u8, 104u8, 101u8, 97u8, 114u8, 116u8,
        98u8, 101u8, 97u8, 116u8, 45u8, 116u8, 105u8, 109u8, 101u8, 111u8, 117u8, 116u8, 1u8,
    ]
}

/// Body of a session-level Reject: `35=3<SOH>58=Unsupported FIX message<SOH>`.
pub open spec fn reject_body() -> Seq<u8> {
    seq![
        51u8, 53u8, 61u8, 51u8, 1u8, 53u8, 56u8, 61u8, 85u8, 110u8, 115u8, 117u8, 112u8, 112u8,
        111u8, 114u8, 116u8, 101u8, 100u8, 32u8, 70u8, 73u8, 88u8, 32u8, 109u8, 101u8, 115u8,
        115u8, 97u8, 103u8, 101u8, 1u8,
    ]
}

/// A complete Heartbeat message.
pub fn heartbeat_message() -> (message: Vec<u8>)
    ensures
        message@ == framed(heartbeat_body()),
{
    // "35=0" SOH
    let body: Vec<u8> = vec![51u8, 53u8, 61u8, 48u8, SOH];
    assert(body@ == heartbeat_body());
    build_message(body.as_slice())
}

/// A complete Test Request, sent when the peer stayed silent for a heartbeat interval.
pub fn test_request_message() -> (message: Vec<u8>)
    ensures
        message@ == framed(test_request_body()),
{
    // "35=1" SOH "112=heartbeat-timeout" SOH
    let body: Vec<u8> = vec![
        51u8, 53u8, 61u8, 49u8, SOH, 49u8, 49u8, 50u8, 61u8, 104u8, 101u8, 97u8, 114u8, 116u8,
        98u8, 101u8, 97u8, 116u8, 45u8, 116u8, 105u8, 109u8, 101u8, 111u8, 117u8, 116u8, SOH,
    ];
    assert(body@ == test_request_body());
    build_message(body.as_slice())
}

/// A complete Reject, the answer to anything but a heartbeat.
pub fn reject_message() -> (message: Vec<u8>)
    ensures
        message@ == framed(reject_body()),
{
    // "35=3" SOH "58=Unsupported FIX message" SOH
    let body: Vec<u8> = vec![
        51u8, 53u8, 61u8, 51u8, SOH, 53u8, 56u8, 61u8, 85u8, 110u8, 115u8, 117u8, 112u8, 112u8,
        111u8, 114u8, 116u8, 101u8, 100u8, 32u8, 70u8, 73u8, 88u8, 32u8, 109u8, 101u8, 115u8,
        115u8, 97u8, 103u8, 101u8, SOH,
    ];
    assert(body@ == reject_body());
    build_message(body.as_slice())
}


/// Framing keeps the fields of a body: when the body ends with a separator, every
/// field of the body (non-empty, with no separator inside) is still a field of the
/// whole message that `build_message` makes of it.
pub proof fn lemma_framing_keeps_fields(body: Seq<u8>, field: Seq<u8>)
    requires
        body.len() > 0,
        is_separator(body.last()),
        field.len() > 0,
        forall|k: int| 0 <= k < field.len() ==> !is_separator(#[trigger] field[k]),
        has_field(body, field),
    ensures
        has_field(framed(body), field),
{
    let i = choose|i: int| field_at(body, field, i);
    let flen = field.len() as int;
    if i + flen == body.len() {
        assert(body.subrange(i, i + flen)[flen - 1] == body.last());
        assert(!is_separator(field[flen - 1]));
    }
    assert(i + flen < body.len());
    let header = message_header(body.len());
    let frame = header + body;
    let msg = framed(body);
    let j = header.len() + i;
    assert(msg == frame + message_trailer(checksum(frame)));
    assert forall|k: int| 0 <= k < body.len() implies msg[header.len() + k] == body[k] by {
        assert(frame[header.len() + k] == body[k]);
    }
    assert(msg.subrange(j, j + flen) =~= body.subrange(i, i + flen));
    if i == 0 {
        assert(header.last() == 1u8);
        assert(msg[j - 1] == header[header.len() - 1]);
    } else {
        assert(msg[j - 1] == body[i - 1]);
    }
    assert(msg[j + flen] == body[i + flen]);
    assert(field_at(msg, field, j));
}

/// The Heartbeat the server sends is itself recognized as a heartbeat.
pub proof fn lemma_heartbeat_message_is_heartbeat()
    ensures
        has_field(framed(heartbeat_body()), heartbeat_field()),
{
    let body = heartbeat_body();
    assert(body.subrange(0, 4) =~= heartbeat_field());
    assert(field_at(body, heartbeat_field(), 0));
    lemma_framing_keeps_fields(body, heartbeat_field());
}


proof fn lemma_decimal_digits(n: nat)
    ensures
        decimal(n).len() > 0,
        forall|k: int| 0 <= k < decimal(n).len() ==> 48 <= #[trigger] decimal(n)[k] <= 57,
    decreases n,
{
    if n >= 10 {
        lemma_decimal_digits(n / 10);
    }
}

/// A field that cannot be confused with the header or trailer fields of a frame:
/// non-empty, free of separators, and not starting with `8`, `9` or `1`.
pub open spec fn is_body_field(field: Seq<u8>) -> bool {
    &&& field.len() > 0
    &&& forall|k: int| 0 <= k < field.len() ==> !is_separator(#[trigger] field[k])
    &&& field[0] != 56u8
    &&& field[0] != 57u8
    &&& field[0] != 49u8
}

/// Framing neither adds nor removes body fields: for a body that ends with a
/// separator, a field such as `35=0` is a field of the whole message exactly when
/// it is a field of the body.
pub proof fn lemma_framed_fields(body: Seq<u8>, field: Seq<u8>)
    requires
        body.len() > 0,
        is_separator(body.last()),
        is_body_field(field),
    ensures
        has_field(framed(body), field) <==> has_field(body, field),
{
    if has_field(body, field) {
        lemma_framing_keeps_fields(body, field);
    }
    if has_field(framed(body), field) {
        let header = message_header(body.len());
        let frame = header + body;
        let trailer = message_trailer(checksum(frame));
        let msg = framed(body);
        let hlen = header.len() as int;
        let blen = body.len() as int;
        let flen = field.len() as int;
        let j = choose|j: int| field_at(msg, field, j);
        assert(msg == frame + trailer);
        assert(msg.subrange(j, j + flen)[0] == msg[j]);
        assert(msg[j] == field[0]);
        lemma_decimal_digits(body.len());
        let digits = decimal(body.len());
        assert(header == begin_string() + digits + seq![1u8]);
        if j < hlen {
            if j == 0 {
                assert(msg[0] == 56u8);
            } else {
                assert(is_separator(msg[j - 1]));
                assert(msg[j - 1] == header[j - 1]);
                if j - 1 < 12 {
                    assert(j - 1 == 9);
                    assert(msg[j] == 57u8);
                } else if j - 1 < 12 + digits.len() {
                    assert(header[j - 1] == digits[j - 1 - 12]);
                } else {
                    assert(j == hlen);
                }
            }
            assert(false);
        } else if j < hlen + blen {
            let i = j - hlen;
            if j + flen > hlen + blen - 1 {
                let k = hlen + blen - 1 - j;
                assert(msg.subrange(j, j + flen)[k] == msg[hlen + blen - 1]);
                assert(msg[hlen + blen - 1] == body.last());
                assert(!is_separator(field[k]));
                assert(false);
            }
            assert(msg.subrange(j, j + flen) =~= body.subrange(i, i + flen));
            assert(msg[j + flen] == body[i + flen]);
            if i > 0 {
                assert(msg[j - 1] == body[i - 1]);
            }
            assert(field_at(body, field, i));
        } else {
            let t = j - hlen - blen;
            assert(msg[j] == trailer[t]);
            if t == 0 {
                assert(trailer[0] == 49u8);
            } else {
                assert(is_separator(msg[j - 1]));
                assert(msg[j - 1] == trailer[t - 1]);
                assert(t - 1 == 6 || t - 1 == 7);
                if t - 1 == 6 {
                    assert(trailer[7] == 10u8);
                }
            }
            assert(false);
        }
    }
}

/// Neither the Reject nor the Test Request the server sends is recognized as a heartbeat.
pub proof fn lemma_reject_and_test_request_are_not_heartbeats()
    ensures
        !has_field(framed(reject_body()), heartbeat_field()),
        !has_field(framed(test_request_body()), heartbeat_field()),
{
    let hb = heartbeat_field();
    lemma_framed_fields(reject_body(), hb);
    lemma_framed_fields(test_request_body(), hb);
    assert forall|i: int| !field_at(reject_body(), hb, i) by {
        if field_at(reject_body(), hb, i) {
            let w = reject_body().subrange(i, i + 4);
            assert(w[0] == reject_body()[i]);
            assert(w[3] == reject_body()[i + 3]);
        }
    }
    assert forall|i: int| !field_at(test_request_body(), hb, i) by {
        if field_at(test_request_body(), hb, i) {
            let w = test_request_body().subrange(i, i + 4);
            assert(w[0] == test_request_body()[i]);
            assert(w[3] == test_request_body()[i + 3]);
        }
    }
}


/// How long the server waits for a message before sending a Test Request, and
/// then for the answer to it, in seconds.
pub const HEARTBEAT_INTERVAL_SECS: u64 = 1u64;

/// How a read of one line from the peer ended: the bytes it gathered, and whether
/// the heartbeat interval ran out before the line was complete.
pub enum ReadOutcome {
    Received(Vec<u8>),
    TimedOut(Vec<u8>),
}

/// Where a FIX connection stands.
pub enum FixSession {
    /// Waiting for the first message.
    AwaitingMessage,
    /// A Test Request went out after the first read timed out; holds what that read gathered.
    AwaitingFollowUp(Vec<u8>),
    /// Nothing more is done on this connection.
    Finished,
}

/// What the connection does next.
pub enum FixAction {
    /// Write the Test Request and record the exchange as a failure lasting one interval.
    SendTestRequest { message: Vec<u8>, exchange: Exchange },
    /// Write the reply (a Heartbeat when `heartbeat`, else a Reject) and record the exchange.
    Reply { message: Vec<u8>, heartbeat: bool, exchange: Exchange },
    /// Stop without writing anything more.
    Close,
}

/// The reply owed to `request`: a Heartbeat when it carries `35=0`, a Reject otherwise.
pub open spec fn reply_body(request: Seq<u8>) -> Seq<u8> {
    if has_field(request, heartbeat_field()) {
        heartbeat_body()
    } else {
        reject_body()
    }
}

/// `action` answers `request`: the framed reply, whether it is a heartbeat, and a
/// `fix` exchange that succeeded exactly for heartbeats.
pub open spec fn replies_to(action: FixAction, request: Seq<u8>) -> bool {
    match action {
        FixAction::Reply { message, heartbeat, exchange } => {
            &&& heartbeat == has_field(request, heartbeat_field())
            &&& message@ == framed(reply_body(request))
            &&& exchange.is("fix"@, heartbeat, request.len() as int, message@.len() as int)
        },
        _ => false,
    }
}

/// `action` sends a Test Request, recorded as a failed `fix` exchange with no request bytes.
pub open spec fn sends_test_request(action: FixAction) -> bool {
    match action {
        FixAction::SendTestRequest { message, exchange } => {
            &&& message@ == framed(test_request_body())
            &&& exchange.is("fix"@, false, 0, message@.len() as int)
        },
        _ => false,
    }
}

fn fix_exchange(success: bool, request_bytes: usize, response_bytes: usize) -> (exchange: Exchange)
    ensures
        exchange.is("fix"@, success, request_bytes as int, response_bytes as int),
{
    Exchange {
        protocol: String::from_str("fix"),
        success,
        request_bytes: request_bytes as u64,
        response_bytes: response_bytes as u64,
    }
}

/// The reply to a complete request, with its exchange.
fn reply(request: Vec<u8>) -> (action: FixAction)
    ensures
        replies_to(action, request@),
{
    let heartbeat = is_heartbeat(request.as_slice());
    let message = if heartbeat {
        heartbeat_message()
    } else {
        reject_message()
    };
    let exchange = fix_exchange(heartbeat, request.len(), message.len());
    FixAction::Reply { message, heartbeat, exchange }
}

impl FixSession {
    /// A fresh connection, waiting for its first message.
    pub fn new() -> (session: FixSession)
        ensures
            session is AwaitingMessage,
    {
        FixSession::AwaitingMessage
    }

    /// Decides what a connection does after a read. A message that arrives in time
    /// is answered at once. When the first read times out the server sends a Test
    /// Request and waits once more; if the answer comes in time, the reply still
    /// goes by what the first read gathered, and if it does not, the connection closes.
    pub fn on_read(self, read: ReadOutcome) -> (result: (FixSession, FixAction))
        ensures
            match (self, read) {
                (FixSession::AwaitingMessage, ReadOutcome::Received(request)) => {
                    &&& result.0 is Finished
                    &&& replies_to(result.1, request@)
                },
                (FixSession::AwaitingMessage, ReadOutcome::TimedOut(partial)) => {
                    &&& result.0 matches FixSession::AwaitingFollowUp(pending) && pending@ == partial@
                    &&& sends_test_request(result.1)
                },
                (FixSession::AwaitingFollowUp(pending), ReadOutcome::Received(_)) => {
                    &&& result.0 is Finished
                    &&& replies_to(result.1, pending@)
                },
                (FixSession::AwaitingFollowUp(_), ReadOutcome::TimedOut(_)) => {
                    &&& result.0 is Finished
                    &&& result.1 is Close
                },
                (FixSession::Finished, _) => {
                    &&& result.0 is Finished
                    &&& result.1 is Close
                },
            },
            result.1 matches FixAction::Reply { heartbeat, exchange, .. } ==> exchange.success
                == heartbeat && exchange.protocol@ == "fix"@,
            result.1 matches FixAction::SendTestRequest { exchange, .. } ==> !exchange.success
                && exchange.request_bytes == 0 && exchange.protocol@ == "fix"@,
    {
        match self {
            FixSession::AwaitingMessage => match read {
                ReadOutcome::Received(request) => (FixSession::Finished, reply(request)),
                ReadOutcome::TimedOut(partial) => {
                    let message = test_request_message();
                    let exchange = fix_exchange(false, 0, message.len());
                    (FixSession::AwaitingFollowUp(partial), FixAction::SendTestRequest { message, exchange })
                },
            },
            FixSession::AwaitingFollowUp(pending) => match read {
                ReadOutcome::Received(_) => (FixSession::Finished, reply(pending)),
                ReadOutcome::TimedOut(_) => (FixSession::Finished, FixAction::Close),
            },
            FixSession::Finished => (FixSession::Finished, FixAction::Close),
        }
    }
}


/// A peer that runs `is_heartbeat` on the server's reply finds a heartbeat exactly
/// when the server flagged the reply as one, that is, exactly when the request
/// carried `35=0`.
pub proof fn lemma_reply_is_recognized(action: FixAction, request: Seq<u8>)
    requires
        replies_to(action, request),
    ensures
        action matches FixAction::Reply { message, heartbeat, .. } && has_field(
            message@,
            heartbeat_field(),
        ) == heartbeat && heartbeat == has_field(request, heartbeat_field()),
{
    lemma_heartbeat_message_is_heartbeat();
    lemma_reject_and_test_request_are_not_heartbeats();
}


/// A reply is recorded as a successful `fix` exchange exactly when it is a
/// Heartbeat, that is exactly when the request carried `35=0`; every Reject is
/// recorded as a failure. The exchange counts the request's bytes in and the
/// reply's bytes out.
pub proof fn lemma_reply_success_is_heartbeat(action: FixAction, request: Seq<u8>)
    requires
        replies_to(action, request),
    ensures
        action matches FixAction::Reply { message, heartbeat, exchange } && exchange.success
            == heartbeat && heartbeat == has_field(request, heartbeat_field())
            && exchange.protocol@ == "fix"@ && exchange.request_bytes == request.len()
            && exchange.response_bytes == message@.len(),
{
}

/// Only SOH (0x01) and LF (0x0A) separate fields: a message holding neither byte
/// is a single field, so it is a heartbeat exactly when it is `35=0` itself.
pub proof fn lemma_heartbeat_without_separators(msg: Seq<u8>)
    requires
        forall|k: int| 0 <= k < msg.len() ==> #[trigger] msg[k] != 1u8 && msg[k] != 10u8,
    ensures
        has_field(msg, seq![51u8, 53u8, 61u8, 48u8]) <==> msg == seq![51u8, 53u8, 61u8, 48u8],
{
    let hb = seq![51u8, 53u8, 61u8, 48u8];
    assert(hb =~= heartbeat_field());
    if has_field(msg, hb) {
        let i = choose|i: int| field_at(msg, hb, i);
        if i > 0 {
            assert(msg[i - 1] != 1u8 && msg[i - 1] != 10u8);
        }
        if i + 4 < msg.len() {
            assert(msg[i + 4] != 1u8 && msg[i + 4] != 10u8);
        }
        assert(msg =~= msg.subrange(i, i + 4));
    }
    if msg == hb {
        assert(msg.subrange(0, 4) =~= hb);
        assert(field_at(msg, hb, 0));
    }
}

/// `35=0` between two field ends (SOH or LF, or the ends of the message) is
/// recognized wherever it stands: `before` must be empty or end with SOH or LF,
/// `after` empty or start with SOH or LF.
pub proof fn lemma_heartbeat_between_separators(before: Seq<u8>, after: Seq<u8>)
    requires
        before.len() == 0 || before.last() == 1u8 || before.last() == 10u8,
        after.len() == 0 || after[0] == 1u8 || after[0] == 10u8,
    ensures
        has_field(before + seq![51u8, 53u8, 61u8, 48u8] + after, seq![51u8, 53u8, 61u8, 48u8]),
{
    let hb = seq![51u8, 53u8, 61u8, 48u8];
    let msg = before + hb + after;
    let i = before.len() as int;
    assert(msg.subrange(i, i + 4) =~= hb);
    if i > 0 {
        assert(msg[i - 1] == before.last());
    }
    if after.len() > 0 {
        assert(msg[i + 4] == after[0]);
    }
    assert(field_at(msg, hb, i));
}

/// The number that ASCII decimal digits denote, most significant first.
pub open spec fn digits_value(digits: Seq<u8>) -> nat
    decreases digits.len(),
{
    if digits.len() == 0 {
        0
    } else {
        digits_value(digits.drop_last()) * 10 + (digits.last() - 48) as nat
    }
}

/// Every byte is an ASCII digit.
pub open spec fn all_digits(s: Seq<u8>) -> bool {
    forall|k: int| 0 <= k < s.len() ==> 48u8 <= #[trigger] s[k] <= 57u8
}

/// The decimal form of `n` is a non-empty string of digits that reads back as
/// `n`, and it starts with `0` only when `n` is 0 (no leading zeros).
pub proof fn lemma_decimal_reads_back(n: nat)
    ensures
        decimal(n).len() > 0,
        all_digits(decimal(n)),
        digits_value(decimal(n)) == n,
        (decimal(n)[0] == 48u8) == (n == 0),
    decreases n,
{
    let d = decimal(n);
    if n >= 10 {
        lemma_decimal_reads_back(n / 10);
        let q = n / 10;
        let r = n % 10;
        assert(d == decimal(q) + seq![(48 + r) as u8]);
        assert(d.drop_last() =~= decimal(q));
        assert(d.last() == 48 + r);
        assert(digits_value(d) == digits_value(decimal(q)) * 10 + r);
        assert(q * 10 + r == n);
        assert(d[0] == decimal(q)[0]);
        assert forall|k: int| 0 <= k < d.len() implies 48u8 <= #[trigger] d[k] <= 57u8 by {
            if k < decimal(q).len() {
                assert(d[k] == decimal(q)[k]);
            }
        }
    } else {
        assert(d.drop_last() =~= Seq::<u8>::empty());
        assert(digits_value(d.drop_last()) == 0);
        assert(d.last() == 48 + n);
    }
}

/// The BodyLength field of every built message reads back as the body's byte
/// count: after `8=FIX.4.4<SOH>9=` come digits denoting `body.len()`, then SOH,
/// then the body itself.
pub proof fn lemma_framed_body_length(body: Seq<u8>)
    ensures
        exists|k: int|
            #![trigger framed(body).subrange(12, 12 + k)]
            1 <= k && 12 + k + 1 + body.len() <= framed(body).len() && all_digits(
                framed(body).subrange(12, 12 + k),
            ) && digits_value(framed(body).subrange(12, 12 + k)) == body.len() && framed(body)[12
                + k] == 1u8 && framed(body).subrange(12 + k + 1, 12 + k + 1 + body.len()) == body,
{
    lemma_decimal_reads_back(body.len());
    let d = decimal(body.len());
    let k = d.len() as int;
    let header = message_header(body.len());
    let frame = header + body;
    let msg = framed(body);
    assert(msg == frame + message_trailer(checksum(frame)));
    assert(header.len() == 12 + k + 1);
    assert(msg.subrange(12, 12 + k) =~= d);
    assert(msg[12 + k] == header[12 + k]);
    assert(msg.subrange(12 + k + 1, 12 + k + 1 + body.len()) =~= body);
}

/// The byte sum adds up over concatenation and is the byte itself for one byte:
/// it is the plain sum of all bytes.
pub proof fn lemma_byte_sum_adds(a: Seq<u8>, b: Seq<u8>, x: u8)
    ensures
        byte_sum(a + b) == byte_sum(a) + byte_sum(b),
        byte_sum(seq![x]) == x,
        byte_sum(Seq::<u8>::empty()) == 0,
    decreases b.len(),
{
    assert(seq![x].drop_last() =~= Seq::<u8>::empty());
    assert(seq![x].last() == x);
    assert(byte_sum(seq![x]) == byte_sum(Seq::<u8>::empty()) + x);
    if b.len() > 0 {
        lemma_byte_sum_adds(a, b.drop_last(), x);
        assert((a + b).drop_last() =~= a + b.drop_last());
    } else {
        assert(a + b =~= a);
    }
}

/// The CheckSum field of every built message is three digits denoting the sum of
/// all bytes before it modulo 256, and the message ends with SOH and LF.
pub proof fn lemma_framed_checksum(body: Seq<u8>)
    ensures
        ({
            let msg = framed(body);
            let n = msg.len() as int;
            &&& n >= 8
            &&& msg.subrange(n - 8, n - 5) == seq![49u8, 48u8, 61u8]
            &&& all_digits(msg.subrange(n - 5, n - 2))
            &&& digits_value(msg.subrange(n - 5, n - 2)) == byte_sum(msg.subrange(0, n - 8)) % 256
            &&& msg[n - 2] == 1u8
            &&& msg[n - 1] == 10u8
        }),
{
    let frame = message_header(body.len()) + body;
    let msg = framed(body);
    let n = msg.len() as int;
    let c = checksum(frame);
    let t = message_trailer(c);
    assert(msg == frame + t);
    assert(t.len() == 8);
    assert(msg.subrange(0, n - 8) =~= frame);
    assert(msg.subrange(n - 8, n - 5) =~= seq![49u8, 48u8, 61u8]);
    let digits = msg.subrange(n - 5, n - 2);
    assert(digits =~= three_digits(c));
    assert(c < 256);
    assert(digits.drop_last() =~= seq![(48 + c / 100) as u8, (48 + (c / 10) % 10) as u8]);
    assert(digits.drop_last().drop_last() =~= seq![(48 + c / 100) as u8]);
    assert(digits.drop_last().drop_last().drop_last() =~= Seq::<u8>::empty());
    let h = c / 100;
    let t2 = (c / 10) % 10;
    let o = c % 10;
    assert(h < 3 && t2 < 10 && o < 10);
    assert(digits[0] == 48 + h && digits[1] == 48 + t2 && digits[2] == 48 + o);
    assert(digits_value(digits.drop_last().drop_last().drop_last()) == 0);
    assert(digits.drop_last().drop_last().last() == 48 + h);
    assert(digits_value(digits.drop_last().drop_last()) == h);
    assert(digits.drop_last().last() == 48 + t2);
    assert(digits_value(digits.drop_last()) == h * 10 + t2);
    assert(digits_value(digits) == (h * 10 + t2) * 10 + o);
    assert(h * 100 + t2 * 10 + o == c) by (nonlinear_arith)
        requires
            h == c / 100,
            t2 == (c / 10) % 10,
            o == c % 10,
            c < 256,
    ;
}

} // verus!
