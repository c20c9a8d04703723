//! Requests to the server on the loopback interface, and its replies.

use vstd::prelude::*;
use vstd::utf8::*;

use crate::body::{self, BodyReader, BodyRun, BodyStage, MAX_RPC_BODY_BYTES};
use crate::number::{self, parse_unsigned, push_decimal};
use crate::stream::{
    self, read_framing_line, ByteStream, FramingError, Progress, MAX_FRAMING_LINE_BYTES,
};
use crate::text::{
    self, chars_of, lowercased, next_word, push_text, same_text, split_at, starts_with, string_of,
    trimmed,
};

verus! {

/// How many headers a reply may have.
pub const MAX_HEADERS: usize = 128;

// ---------------------------------------------------------------------------
// Requests
// ---------------------------------------------------------------------------

/// The request that asks the server on `port` whether it is up.
pub open spec fn healthz_request_text(port: u16) -> Seq<char> {
    "GET /healthz HTTP/1.1\r\nHost: 127.0.0.1:"@ + number::decimal(port as nat)
        + "\r\nConnection: close\r\n\r\n"@
}

/// The request that calls `method` of the server on `port` with the message `body`.
/// The length that it states is that of the message in bytes.
pub open spec fn rpc_request_text(port: u16, method: Seq<char>, body: Seq<char>) -> Seq<char> {
    "POST /exa.language_server_pb.LanguageServerService/"@ + method
        + " HTTP/1.1\r\nHost: 127.0.0.1:"@ + number::decimal(port as nat)
        + "\r\nContent-Type: application/json\r\nConnect-Protocol-Version: 1\r\nContent-Length: "@
        + number::decimal(encode_utf8(body).len()) + "\r\nConnection: close\r\n\r\n"@ + body
}

/// The request that asks the server on `port` whether it is up.
pub fn healthz_request(port: u16) -> (r: String)
    ensures
        r@ == healthz_request_text(port),
{
    let mut r: String = String::new();
    push_text(&mut r, "GET /healthz HTTP/1.1\r\nHost: 127.0.0.1:");
    push_decimal(&mut r, port as u64);
    push_text(&mut r, "\r\nConnection: close\r\n\r\n");
    assert(r@ =~= healthz_request_text(port));
    r
}

/// The request that calls `method` of the server on `port` with the message `body`.
pub fn rpc_request(port: u16, method: &str, body: &str) -> (r: String)
    ensures
        r@ == rpc_request_text(port, method@, body@),
{
    let mut r: String = String::new();
    push_text(&mut r, "POST /exa.language_server_pb.LanguageServerService/");
    push_text(&mut r, method);
    push_text(&mut r, " HTTP/1.1\r\nHost: 127.0.0.1:");
    push_decimal(&mut r, port as u64);
    push_text(
        &mut r,
        "\r\nContent-Type: application/json\r\nConnect-Protocol-Version: 1\r\nContent-Length: ",
    );
    push_decimal(&mut r, body.as_bytes().len() as u64);
    push_text(&mut r, "\r\nConnection: close\r\n\r\n");
    push_text(&mut r, body);
    assert(r@ =~= rpc_request_text(port, method@, body@));
    r
}

// ---------------------------------------------------------------------------
// Status line and headers
// ---------------------------------------------------------------------------

/// The status code that a status line gives: its second word, a number in the range
/// of `u16`, when its first word begins with `HTTP/`.
pub open spec fn status_code(line: Seq<char>) -> Option<u16> {
    let parts = text::words(line);
    if parts.len() < 2 || !"HTTP/"@.is_prefix_of(parts[0]) {
        None
    } else {
        match number::unsigned_number(parts[1], 10, u16::MAX as int) {
            Some(code) => Some(code as u16),
            None => None,
        }
    }
}

/// The length that a header line states, when it is a `Content-Length` header.
pub open spec fn header_length(header: Seq<char>) -> Option<usize> {
    let value = text::trim(header.skip("content-length:"@.len() as int));
    match number::unsigned_number(value, 10, usize::MAX as int) {
        Some(length) => Some(length as usize),
        None => None,
    }
}

/// Whether a `Transfer-Encoding` header lists the coding `chunked`.
pub open spec fn lists_chunked(header: Seq<char>) -> bool {
    let codings = text::split(header.skip("transfer-encoding:"@.len() as int), ',');
    exists|i: int| 0 <= i < codings.len() && text::trim(#[trigger] codings[i]) == "chunked"@
}

/// What is known of the length of the body after the header `header`, which is
/// trimmed and in lower case.
pub open spec fn length_after(header: Seq<char>, known: Option<usize>) -> Option<usize> {
    if "content-length:"@.is_prefix_of(header) {
        header_length(header)
    } else {
        known
    }
}

/// Whether the body is known to be chunked after the header `header`, which is
/// trimmed and in lower case.
pub open spec fn chunked_after(header: Seq<char>, known: bool) -> bool {
    known || ("transfer-encoding:"@.is_prefix_of(header) && lists_chunked(header))
}

/// Parses the numeric status code out of an HTTP status line.
pub fn http_status(status_line: &str) -> (r: Option<u16>)
    ensures
        r == status_code(status_line@),
{
    let chars: Vec<char> = chars_of(status_line);
    match next_word(chars.as_slice()) {
        None => None,
        Some((version, rest)) => {
            assert(text::words(status_line@)[0] == version@);
            if !starts_with(version, chars_of("HTTP/").as_slice()) {
                return None;
            }
            match next_word(rest) {
                None => None,
                Some((code, _)) => {
                    assert(text::words(status_line@)[1] == code@);
                    match parse_unsigned(code, 10, u16::MAX as u64) {
                        Some(n) => Some(n as u16),
                        None => None,
                    }
                },
            }
        },
    }
}

/// The length that a `Content-Length` header states.
fn parse_header_length(header: &[char]) -> (r: Option<usize>)
    requires
        "content-length:"@.is_prefix_of(header@),
    ensures
        r == header_length(header@),
{
    let name: Vec<char> = chars_of("content-length:");
    let value: &[char] = vstd::slice::slice_subrange(header, name.len(), header.len());
    assert(value@ =~= header@.skip(name@.len() as int));
    match parse_unsigned(trimmed(value), 10, usize::MAX as u64) {
        Some(n) => Some(n as usize),
        None => None,
    }
}

/// Whether a `Transfer-Encoding` header lists the coding `chunked`.
fn header_lists_chunked(header: &[char]) -> (r: bool)
    requires
        "transfer-encoding:"@.is_prefix_of(header@),
    ensures
        r == lists_chunked(header@),
{
    let name: Vec<char> = chars_of("transfer-encoding:");
    let value: &[char] = vstd::slice::slice_subrange(header, name.len(), header.len());
    assert(value@ =~= header@.skip(name@.len() as int));
    let wanted: Vec<char> = chars_of("chunked");
    let codings = split_at(value, ',');
    let mut i: usize = 0;
    while i < codings.len()
        invariant
            i <= codings@.len(),
            wanted@ == "chunked"@,
            codings@.len() == text::split(value@, ',').len(),
            value@ == header@.skip("transfer-encoding:"@.len() as int),
            forall|j: int|
                0 <= j < codings@.len() ==> (#[trigger] codings@[j])@ == text::split(
                    value@,
                    ',',
                )[j],
            forall|j: int|
                0 <= j < i ==> text::trim(#[trigger] text::split(value@, ',')[j]) != "chunked"@,
        decreases codings@.len() - i,
    {
        if same_text(trimmed(codings[i]), wanted.as_slice()) {
            assert(text::trim(text::split(value@, ',')[i as int]) == "chunked"@);
            return true;
        }
        i = i + 1;
    }
    false
}

// ---------------------------------------------------------------------------
// Replies
// ---------------------------------------------------------------------------

/// Why a call of the server failed.
pub enum RpcFailure {
    /// The reply is not framed as HTTP demands.
    Framing(FramingError),
    /// The server answered with this status, and a message.
    Status(u16, Seq<char>),
}

/// Why a call of the server failed.
#[derive(Debug)]
pub enum RpcError {
    /// The reply is not framed as HTTP demands.
    Framing(FramingError),
    /// The server answered with this status, and a message.
    Status(u16, String),
}

impl View for RpcError {
    type V = RpcFailure;

    open spec fn view(&self) -> RpcFailure {
        match *self {
            RpcError::Framing(error) => RpcFailure::Framing(error),
            RpcError::Status(status, message) => RpcFailure::Status(status, message@),
        }
    }
}

impl RpcError {
    /// The message that tells a user that the call of `method` failed.
    pub fn message(&self, method: &str) -> (r: String)
        ensures
            r@ == self@.message_text(method@),
    {
        match self {
            RpcError::Framing(error) => error.message(),
            RpcError::Status(status, message) => {
                let mut r: String = String::new();
                push_text(&mut r, "agy ");
                push_text(&mut r, method);
                push_text(&mut r, " returned HTTP ");
                push_decimal(&mut r, *status as u64);
                push_text(&mut r, ": ");
                push_text(&mut r, message.as_str());
                assert(r@ =~= self@.message_text(method@));
                r
            },
        }
    }
}

impl RpcFailure {
    /// The message that tells a user that the call of `method` failed.
    pub open spec fn message_text(self, method: Seq<char>) -> Seq<char> {
        match self {
            RpcFailure::Framing(error) => error.message_text(),
            RpcFailure::Status(status, message) => "agy "@ + method + " returned HTTP "@
                + number::decimal(status as nat) + ": "@ + message,
        }
    }
}

/// What the reader of a reply expects next.
pub enum ResponseState {
    /// The status line.
    Status,
    /// A header line, with what is known so far: the status, the length of the body,
    /// whether it is chunked, and how many headers there were.
    Headers(u16, Option<usize>, bool, usize),
    /// The body of a reply with this status.
    Body(u16, BodyStage, Seq<u8>),
}

/// What becomes of a reply when the reader runs as far as the bytes allow.
pub enum ResponseRun {
    /// The state it waits in, and the bytes left.
    Blocked(ResponseState, Seq<u8>),
    /// The result, and the bytes left.
    Done(Result<Seq<char>, RpcFailure>, Seq<u8>),
}

/// What one line of the head of a reply leads to: a state, or a failure.
pub open spec fn head_line(state: ResponseState, line: Seq<char>) -> Result<
    ResponseState,
    FramingError,
> {
    match state {
        ResponseState::Status => match status_code(line) {
            None => Err(FramingError::MalformedStatusLine),
            Some(status) => Ok(ResponseState::Headers(status, None, false, 0)),
        },
        ResponseState::Headers(status, length, chunked, count) => {
            let header = text::lowercase(text::trim(line));
            if header.len() == 0 {
                Ok(ResponseState::Body(status, body::first_stage(length, chunked), Seq::empty()))
            } else if count + 1 > MAX_HEADERS {
                Err(FramingError::TooManyHeaders)
            } else {
                Ok(
                    ResponseState::Headers(
                        status,
                        length_after(header, length),
                        chunked_after(header, chunked),
                        (count + 1) as usize,
                    ),
                )
            }
        },
        ResponseState::Body(..) => Ok(state),
    }
}

/// The result of a call whose reply has the status `status` and the body `body`: the
/// body, or a failure unless the status is 200.
pub open spec fn rpc_result(status: u16, body: Result<Seq<char>, FramingError>) -> Result<
    Seq<char>,
    RpcFailure,
> {
    match body {
        Err(error) => Err(RpcFailure::Framing(error)),
        Ok(text) => if status != 200 {
            Err(RpcFailure::Status(status, text::trim(text)))
        } else {
            Ok(text)
        },
    }
}

/// The place of a state in a reply: later states come lower.
pub open spec fn state_rank(state: ResponseState) -> nat {
    match state {
        ResponseState::Status => 2,
        ResponseState::Headers(..) => 1,
        ResponseState::Body(..) => 0,
    }
}

/// Reading a reply in the state `state`, as far as the bytes `bytes` allow. With
/// `closed` they are all that will ever arrive.
pub open spec fn response_run(state: ResponseState, bytes: Seq<u8>, closed: bool) -> ResponseRun
    decreases bytes.len(), state_rank(state),
    via response_run_decreases
{
    match state {
        ResponseState::Body(status, stage, out) => match body::body_run(stage, out, bytes, closed) {
            BodyRun::Blocked(waiting, grown, rest) => ResponseRun::Blocked(
                ResponseState::Body(status, waiting, grown),
                rest,
            ),
            BodyRun::Done(result, rest) => ResponseRun::Done(rpc_result(status, result), rest),
        },
        _ => if !stream::line_complete(bytes, closed) {
            ResponseRun::Blocked(state, bytes)
        } else {
            match stream::framing_line(bytes) {
                Err(error) => ResponseRun::Done(
                    Err(RpcFailure::Framing(error)),
                    stream::after_line(bytes),
                ),
                Ok(line) => match head_line(state, line) {
                    Err(error) => ResponseRun::Done(
                        Err(RpcFailure::Framing(error)),
                        stream::after_line(bytes),
                    ),
                    Ok(next) => response_run(next, stream::after_line(bytes), closed),
                },
            }
        },
    }
}

#[via_fn]
proof fn response_run_decreases(state: ResponseState, bytes: Seq<u8>, closed: bool) {
    if !(state is Body) {
        lemma_head_advances(state, bytes);
    }
}

proof fn lemma_head_advances(state: ResponseState, bytes: Seq<u8>)
    requires
        !(state is Body),
    ensures
        stream::framing_line(bytes) matches Ok(line) ==> (head_line(state, line) matches Ok(
            next,
        ) ==> {
            let left = stream::after_line(bytes).len();
            ||| left < bytes.len()
            ||| left == bytes.len() && state_rank(next) < state_rank(state)
        }),
{
    stream::lemma_line_length(bytes, MAX_FRAMING_LINE_BYTES as nat);
    if stream::line_length(bytes, MAX_FRAMING_LINE_BYTES as nat) == 0 {
        assert(stream::raw_line(bytes) =~= Seq::<u8>::empty());
        assert(decode_utf8(stream::raw_line(bytes)) =~= Seq::<char>::empty());
    }
}

/// What the reader of a reply expects next.
#[derive(Debug, Clone, Copy, PartialEq, Eq, Structural)]
enum ResponseStage {
    Status,
    Headers(u16, Option<usize>, bool, usize),
    Body(u16),
}

/// Reads a reply from the bytes that have arrived, as often as more arrive.
#[derive(Debug)]
pub struct ResponseReader {
    stage: ResponseStage,
    body: BodyReader,
}

impl ResponseReader {
    /// What the reader expects next.
    pub closed spec fn state(&self) -> ResponseState {
        match self.stage {
            ResponseStage::Status => ResponseState::Status,
            ResponseStage::Headers(status, length, chunked, count) => ResponseState::Headers(
                status,
                length,
                chunked,
                count,
            ),
            ResponseStage::Body(status) => ResponseState::Body(
                status,
                self.body.stage(),
                self.body.so_far(),
            ),
        }
    }

    /// A reader at the start of a reply.
    pub fn new() -> (r: Self)
        ensures
            r.state() == ResponseState::Status,
    {
        ResponseReader { stage: ResponseStage::Status, body: BodyReader::new(None, false) }
    }

    /// Takes one line of the head of the reply.
    fn read_head_line(&mut self, line: &str) -> (r: Result<(), FramingError>)
        requires
            !(old(self).state() is Body),
        ensures
            match r {
                Ok(_) => head_line(old(self).state(), line@) == Ok::<ResponseState, FramingError>(
                    final(self).state(),
                ),
                Err(error) => head_line(old(self).state(), line@) == Err::<
                    ResponseState,
                    FramingError,
                >(error),
            },
    {
        match self.stage {
            ResponseStage::Status => match http_status(line) {
                None => Err(FramingError::MalformedStatusLine),
                Some(status) => {
                    self.stage = ResponseStage::Headers(status, None, false, 0);
                    Ok(())
                },
            },
            ResponseStage::Headers(status, length, chunked, count) => {
                let chars: Vec<char> = chars_of(line);
                let header: Vec<char> = lowercased(trimmed(chars.as_slice()));
                if header.len() == 0 {
                    self.stage = ResponseStage::Body(status);
                    self.body = BodyReader::new(length, chunked);
                    return Ok(());
                }
                if count >= MAX_HEADERS {
                    return Err(FramingError::TooManyHeaders);
                }
                let length = if starts_with(
                    header.as_slice(),
                    chars_of("content-length:").as_slice(),
                ) {
                    parse_header_length(header.as_slice())
                } else {
                    length
                };
                let chunked = chunked || (starts_with(
                    header.as_slice(),
                    chars_of("transfer-encoding:").as_slice(),
                ) && header_lists_chunked(header.as_slice()));
                self.stage = ResponseStage::Headers(status, length, chunked, count + 1);
                Ok(())
            },
            ResponseStage::Body(_) => Ok(()),
        }
    }

    /// Reads on, as far as the bytes that have arrived allow.
    pub fn poll(&mut self, input: &mut ByteStream) -> (r: Progress<Result<String, RpcError>>)
        ensures
            final(input).is_closed() == old(input).is_closed(),
            ({
                let run = response_run(
                    old(self).state(),
                    old(input).pending(),
                    old(input).is_closed(),
                );
                match r {
                    Progress::Pending => run == ResponseRun::Blocked(
                        final(self).state(),
                        final(input).pending(),
                    ),
                    Progress::Ready(Ok(text)) => run == ResponseRun::Done(
                        Ok(text@),
                        final(input).pending(),
                    ),
                    Progress::Ready(Err(error)) => run == ResponseRun::Done(
                        Err(error@),
                        final(input).pending(),
                    ),
                }
            }),
    {
        loop
            invariant
                input.is_closed() == old(input).is_closed(),
                response_run(old(self).state(), old(input).pending(), old(input).is_closed())
                    == response_run(self.state(), input.pending(), input.is_closed()),
            decreases input.pending().len(), state_rank(self.state()),
        {
            if let ResponseStage::Body(status) = self.stage {
                return match self.body.poll(input) {
                    Progress::Pending => Progress::Pending,
                    Progress::Ready(Err(error)) => Progress::Ready(Err(RpcError::Framing(error))),
                    Progress::Ready(Ok(text)) => if status != 200 {
                        let chars: Vec<char> = chars_of(text.as_str());
                        let message: String = string_of(trimmed(chars.as_slice()));
                        Progress::Ready(Err(RpcError::Status(status, message)))
                    } else {
                        Progress::Ready(Ok(text))
                    },
                };
            }
            proof {
                lemma_head_advances(self.state(), input.pending());
            }
            match read_framing_line(input) {
                Progress::Pending => {
                    return Progress::Pending;
                },
                Progress::Ready(Err(error)) => {
                    return Progress::Ready(Err(RpcError::Framing(error)));
                },
                Progress::Ready(Ok(line)) => {
                    match self.read_head_line(line.as_str()) {
                        Ok(_) => {},
                        Err(error) => {
                            return Progress::Ready(Err(RpcError::Framing(error)));
                        },
                    }
                },
            }
        }
    }
}

/// Whether a reply says that the server is up: its status line gives the status 200.
/// `None` while the status line has not arrived.
pub open spec fn health(bytes: Seq<u8>, closed: bool) -> Option<bool> {
    if !stream::line_complete(bytes, closed) {
        None
    } else {
        match stream::framing_line(bytes) {
            Err(_) => Some(false),
            Ok(line) => Some(status_code(line) == Some(200u16)),
        }
    }
}

/// Whether the reply that arrives on `reader` says that the server is up.
pub fn read_health(reader: &mut ByteStream) -> (r: Progress<bool>)
    ensures
        final(reader).is_closed() == old(reader).is_closed(),
        match r {
            Progress::Pending => {
                &&& health(old(reader).pending(), old(reader).is_closed()) is None
                &&& final(reader).pending() == old(reader).pending()
            },
            Progress::Ready(up) => {
                &&& health(old(reader).pending(), old(reader).is_closed()) == Some(up)
                &&& final(reader).pending() == stream::after_line(old(reader).pending())
            },
        },
{
    match read_framing_line(reader) {
        Progress::Pending => Progress::Pending,
        Progress::Ready(Err(_)) => Progress::Ready(false),
        Progress::Ready(Ok(line)) => match http_status(line.as_str()) {
            Some(status) => Progress::Ready(status == 200),
            None => Progress::Ready(false),
        },
    }
}

// ---------------------------------------------------------------------------
// Laws
// ---------------------------------------------------------------------------

/// Once the server has sent its last byte, reading its reply comes to an end.
pub proof fn closed_stream_finishes_reply(state: ResponseState, bytes: Seq<u8>)
    ensures
        response_run(state, bytes, true) is Done,
    decreases bytes.len(), state_rank(state),
{
    match state {
        ResponseState::Body(_, stage, out) => {
            body::closed_stream_finishes_body(stage, out, bytes);
        },
        _ => {
            lemma_head_advances(state, bytes);
            if let Ok(line) = stream::framing_line(bytes) {
                if let Ok(next) = head_line(state, line) {
                    closed_stream_finishes_reply(next, stream::after_line(bytes));
                }
            }
        },
    }
}

/// The result does not depend on how the bytes of a reply arrive: reading what has
/// arrived, and then the rest, gives what reading all of it at once gives.
pub proof fn reply_does_not_depend_on_arrival(
    state: ResponseState,
    bytes: Seq<u8>,
    more: Seq<u8>,
    closed: bool,
)
    ensures
        match response_run(state, bytes, false) {
            ResponseRun::Done(result, rest) => response_run(state, bytes + more, closed)
                == ResponseRun::Done(result, rest + more),
            ResponseRun::Blocked(waiting, rest) => response_run(state, bytes + more, closed)
                == response_run(waiting, rest + more, closed),
        },
    decreases bytes.len(), state_rank(state),
{
    match state {
        ResponseState::Body(_, stage, out) => {
            body::body_does_not_depend_on_arrival(stage, out, bytes, more, closed);
        },
        _ => {
            if stream::line_complete(bytes, false) {
                stream::complete_line_is_final(bytes, more);
                lemma_head_advances(state, bytes);
                if let Ok(line) = stream::framing_line(bytes) {
                    if let Ok(next) = head_line(state, line) {
                        let rest = stream::after_line(bytes);
                        reply_does_not_depend_on_arrival(next, rest, more, closed);
                    }
                }
            }
        },
    }
}

/// What holds of every state that a reader reaches: the headers counted, and the
/// body read, stay within their limits.
pub open spec fn state_valid(state: ResponseState) -> bool {
    match state {
        ResponseState::Status => true,
        ResponseState::Headers(_, _, _, count) => count <= MAX_HEADERS,
        ResponseState::Body(_, stage, out) => body::stage_valid(stage, out),
    }
}

/// A reply that was read has a body no longer than the limit. While the reader waits
/// it holds no more than the limit, and has counted no more headers than allowed.
pub proof fn reply_is_bounded(state: ResponseState, bytes: Seq<u8>, closed: bool)
    requires
        state_valid(state),
    ensures
        match response_run(state, bytes, closed) {
            ResponseRun::Done(result, _) => result matches Ok(text) ==> encode_utf8(text).len()
                <= MAX_RPC_BODY_BYTES,
            ResponseRun::Blocked(waiting, rest) => {
                &&& state_valid(waiting)
                &&& rest.len() <= MAX_RPC_BODY_BYTES
            },
        },
    decreases bytes.len(), state_rank(state),
{
    match state {
        ResponseState::Body(_, stage, out) => {
            body::body_is_bounded(stage, out, bytes, closed);
        },
        _ => {
            lemma_head_advances(state, bytes);
            stream::lemma_line_length(bytes, MAX_FRAMING_LINE_BYTES as nat);
            let n = stream::line_length(bytes, MAX_FRAMING_LINE_BYTES as nat);
            if n > 0 {
                assert(stream::raw_line(bytes).last() == bytes[n - 1]);
            }
            if let Ok(line) = stream::framing_line(bytes) {
                if let Ok(next) = head_line(state, line) {
                    reply_is_bounded(next, stream::after_line(bytes), closed);
                }
            }
        },
    }
}

/// A call succeeds only on the status 200: that of the status line at the start of
/// the reply, or the one that was read before.
pub proof fn success_has_status_200(state: ResponseState, bytes: Seq<u8>, closed: bool)
    requires
        response_run(state, bytes, closed) matches ResponseRun::Done(Ok(_), _),
    ensures
        match state {
            ResponseState::Status => {
                &&& stream::framing_line(bytes) matches Ok(line)
                &&& status_code(line) == Some(200u16)
            },
            ResponseState::Headers(status, _, _, _) => status == 200,
            ResponseState::Body(status, _, _) => status == 200,
        },
    decreases bytes.len(), state_rank(state),
{
    if !(state is Body) {
        lemma_head_advances(state, bytes);
        if let Ok(line) = stream::framing_line(bytes) {
            if let Ok(next) = head_line(state, line) {
                success_has_status_200(next, stream::after_line(bytes), closed);
            }
        }
    }
}

proof fn lemma_lower(c: char)
    ensures
        text::lower(text::lower(c)) == text::lower(c),
        text::white_space(text::lower(c)) == text::white_space(c),
{
}

proof fn lemma_lowercase_trim_start(s: Seq<char>)
    ensures
        text::trim_start(text::lowercase(s)) == text::lowercase(text::trim_start(s)),
    decreases s.len(),
{
    if s.len() > 0 {
        lemma_lower(s[0]);
        if text::white_space(s[0]) {
            assert(text::lowercase(s).drop_first() =~= text::lowercase(s.drop_first()));
            lemma_lowercase_trim_start(s.drop_first());
        }
    }
}

proof fn lemma_lowercase_trim_end(s: Seq<char>)
    ensures
        text::trim_end(text::lowercase(s)) == text::lowercase(text::trim_end(s)),
    decreases s.len(),
{
    if s.len() > 0 {
        lemma_lower(s.last());
        if text::white_space(s.last()) {
            assert(text::lowercase(s).drop_last() =~= text::lowercase(s.drop_last()));
            lemma_lowercase_trim_end(s.drop_last());
        }
    }
}

/// A header means the same in capitals and in lower case.
pub proof fn header_case_is_ignored(
    status: u16,
    length: Option<usize>,
    chunked: bool,
    count: usize,
    line: Seq<char>,
    other: Seq<char>,
)
    requires
        text::lowercase(line) == text::lowercase(other),
    ensures
        head_line(ResponseState::Headers(status, length, chunked, count), line) == head_line(
            ResponseState::Headers(status, length, chunked, count),
            other,
        ),
{
    lemma_lowercase_trim_start(line);
    lemma_lowercase_trim_end(text::trim_start(line));
    lemma_lowercase_trim_start(other);
    lemma_lowercase_trim_end(text::trim_start(other));
}

} // verus!
