//! Replies as a server writes them, and that reading them gives them back.

use vstd::prelude::*;
use vstd::utf8::*;

use crate::body::{self, MAX_RPC_BODY_BYTES, MAX_TRAILER_LINES};
use crate::chunked::{self, Chunk};
use crate::http::{self, ResponseRun, ResponseState, MAX_HEADERS};
use crate::text;

verus! {

/// What the headers `headers` say of the length of the body, after `known`.
pub open spec fn length_of(headers: Seq<Seq<char>>, known: Option<usize>) -> Option<usize>
    decreases headers.len(),
{
    if headers.len() == 0 {
        known
    } else {
        length_of(
            headers.drop_first(),
            http::length_after(text::lowercase(text::trim(headers[0].push('\n'))), known),
        )
    }
}

/// Whether the headers `headers` say that the body is chunked, after `known`.
pub open spec fn chunked_of(headers: Seq<Seq<char>>, known: bool) -> bool
    decreases headers.len(),
{
    if headers.len() == 0 {
        known
    } else {
        chunked_of(
            headers.drop_first(),
            http::chunked_after(text::lowercase(text::trim(headers[0].push('\n'))), known),
        )
    }
}

/// Whether `header` can be sent: a line that is not blank.
pub open spec fn writable_header(header: Seq<char>) -> bool {
    chunked::writable_line(header) && text::trim(header.push('\n')).len() > 0
}

/// The head of a reply as it is sent: the status line, the headers, an empty line.
pub open spec fn head_bytes(status_line: Seq<char>, headers: Seq<Seq<char>>) -> Seq<u8> {
    chunked::line_bytes(status_line) + chunked::trailer_bytes(headers)
}

proof fn lemma_headers(
    status: u16,
    length: Option<usize>,
    chunked: bool,
    count: usize,
    headers: Seq<Seq<char>>,
    rest: Seq<u8>,
    closed: bool,
)
    requires
        count + headers.len() <= MAX_HEADERS,
        forall|i: int| 0 <= i < headers.len() ==> writable_header(#[trigger] headers[i]),
    ensures
        http::response_run(
            ResponseState::Headers(status, length, chunked, count),
            chunked::trailer_bytes(headers) + rest,
            closed,
        ) == http::response_run(
            ResponseState::Body(
                status,
                body::first_stage(length_of(headers, length), chunked_of(headers, chunked)),
                Seq::empty(),
            ),
            rest,
            closed,
        ),
    decreases headers.len(),
{
    let bytes = chunked::trailer_bytes(headers) + rest;
    let state = ResponseState::Headers(status, length, chunked, count);
    if headers.len() == 0 {
        chunked::lemma_empty_line();
        chunked::sent_line_reads_back(seq!['\r'], rest, closed);
        assert(text::lowercase(text::trim(seq!['\r'].push('\n'))).len() == 0);
    } else {
        let first = headers[0];
        let others = headers.drop_first();
        let tail = chunked::trailer_bytes(others) + rest;
        assert(bytes =~= chunked::line_bytes(first) + tail);
        assert(writable_header(headers[0]));
        chunked::sent_line_reads_back(first, tail, closed);
        let header = text::lowercase(text::trim(first.push('\n')));
        assert(header.len() > 0);
        assert forall|i: int| 0 <= i < others.len() implies writable_header(#[trigger] others[i]) by {
            assert(others[i] == headers[i + 1]);
        }
        lemma_headers(
            status,
            http::length_after(header, length),
            http::chunked_after(header, chunked),
            (count + 1) as usize,
            others,
            rest,
            closed,
        );
    }
}

/// The head of a reply that was sent leads to its body, framed as the headers say.
pub proof fn sent_head_leads_to_body(
    status: u16,
    status_line: Seq<char>,
    headers: Seq<Seq<char>>,
    rest: Seq<u8>,
    closed: bool,
)
    requires
        chunked::writable_line(status_line),
        http::status_code(status_line.push('\n')) == Some(status),
        headers.len() <= MAX_HEADERS,
        forall|i: int| 0 <= i < headers.len() ==> writable_header(#[trigger] headers[i]),
    ensures
        http::response_run(ResponseState::Status, head_bytes(status_line, headers) + rest, closed)
            == http::response_run(
            ResponseState::Body(
                status,
                body::first_stage(length_of(headers, None), chunked_of(headers, false)),
                Seq::empty(),
            ),
            rest,
            closed,
        ),
{
    let bytes = head_bytes(status_line, headers) + rest;
    let tail = chunked::trailer_bytes(headers) + rest;
    assert(bytes =~= chunked::line_bytes(status_line) + tail);
    chunked::sent_line_reads_back(status_line, tail, closed);
    lemma_headers(status, None, false, 0, headers, rest, closed);
}

/// A message that a server sends with its length is the result of the call, when the
/// status is 200; otherwise the call fails with that status and message.
pub proof fn sized_reply_reads_back(
    status: u16,
    status_line: Seq<char>,
    headers: Seq<Seq<char>>,
    text: Seq<char>,
    rest: Seq<u8>,
    closed: bool,
)
    requires
        chunked::writable_line(status_line),
        http::status_code(status_line.push('\n')) == Some(status),
        headers.len() <= MAX_HEADERS,
        forall|i: int| 0 <= i < headers.len() ==> writable_header(#[trigger] headers[i]),
        encode_utf8(text).len() <= MAX_RPC_BODY_BYTES,
        length_of(headers, None) == Some(encode_utf8(text).len() as usize),
        !chunked_of(headers, false),
    ensures
        http::response_run(
            ResponseState::Status,
            head_bytes(status_line, headers) + encode_utf8(text) + rest,
            closed,
        ) == ResponseRun::Done(http::rpc_result(status, Ok(text)), rest),
{
    let body = encode_utf8(text) + rest;
    assert(head_bytes(status_line, headers) + encode_utf8(text) + rest =~= head_bytes(
        status_line,
        headers,
    ) + body);
    sent_head_leads_to_body(status, status_line, headers, body, closed);
    body::sized_body_reads_back(text, rest, closed);
}

/// A message that a server sends in chunks is the result of the call, when the status
/// is 200; otherwise the call fails with that status and message.
pub proof fn chunked_reply_reads_back(
    status: u16,
    status_line: Seq<char>,
    headers: Seq<Seq<char>>,
    text: Seq<char>,
    chunks: Seq<Chunk>,
    trailers: Seq<Seq<char>>,
    rest: Seq<u8>,
    closed: bool,
)
    requires
        chunked::writable_line(status_line),
        http::status_code(status_line.push('\n')) == Some(status),
        headers.len() <= MAX_HEADERS,
        forall|i: int| 0 <= i < headers.len() ==> writable_header(#[trigger] headers[i]),
        chunked_of(headers, false),
        encode_utf8(text).len() <= MAX_RPC_BODY_BYTES,
        chunked::joined(chunks) == encode_utf8(text),
        forall|i: int| 0 <= i < chunks.len() ==> chunked::writable_chunk(#[trigger] chunks[i]),
        trailers.len() <= MAX_TRAILER_LINES,
        forall|i: int| 0 <= i < trailers.len() ==> writable_header(#[trigger] trailers[i]),
    ensures
        http::response_run(
            ResponseState::Status,
            head_bytes(status_line, headers) + chunked::chunked_bytes(chunks, trailers) + rest,
            closed,
        ) == ResponseRun::Done(http::rpc_result(status, Ok(text)), rest),
{
    let body = chunked::chunked_bytes(chunks, trailers) + rest;
    assert(head_bytes(status_line, headers) + chunked::chunked_bytes(chunks, trailers) + rest
        =~= head_bytes(status_line, headers) + body);
    sent_head_leads_to_body(status, status_line, headers, body, closed);
    assert forall|i: int| 0 <= i < trailers.len() implies chunked::writable_line(#[trigger] trailers[i])
        && text::trim(trailers[i].push('\n')).len() > 0 by {
        assert(writable_header(trailers[i]));
    }
    chunked::chunked_body_reads_back(
        text,
        chunks,
        trailers,
        rest,
        closed,
        length_of(headers, None),
    );
}

/// A message that a server sends without saying how it is framed, and then closes
/// the stream, is the result of the call, when the status is 200; otherwise the call
/// fails with that status and message.
pub proof fn unsized_reply_reads_back(
    status: u16,
    status_line: Seq<char>,
    headers: Seq<Seq<char>>,
    text: Seq<char>,
)
    requires
        chunked::writable_line(status_line),
        http::status_code(status_line.push('\n')) == Some(status),
        headers.len() <= MAX_HEADERS,
        forall|i: int| 0 <= i < headers.len() ==> writable_header(#[trigger] headers[i]),
        encode_utf8(text).len() <= MAX_RPC_BODY_BYTES,
        length_of(headers, None) is None,
        !chunked_of(headers, false),
    ensures
        http::response_run(
            ResponseState::Status,
            head_bytes(status_line, headers) + encode_utf8(text),
            true,
        ) == ResponseRun::Done(http::rpc_result(status, Ok(text)), Seq::empty()),
{
    sent_head_leads_to_body(status, status_line, headers, encode_utf8(text), true);
    body::unsized_body_reads_back(text);
}

} // verus!
