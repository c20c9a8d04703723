//! Status lines and headers as a server writes them, and what reading them tells.

use vstd::prelude::*;
use vstd::utf8::*;

use crate::body::{self, BodyRun, BodyStage, MAX_RPC_BODY_BYTES, MAX_TRAILER_LINES};
use crate::chunked::{self, Chunk};
use crate::http::{self, ResponseRun, ResponseState, RpcError, RpcFailure};
use crate::number;
use crate::reply;
use crate::stream::{self, FramingError};
use crate::text;

verus! {

/// The status line with this status and reason, without its line feed.
pub open spec fn status_line(status: u16, reason: Seq<char>) -> Seq<char> {
    "HTTP/1.1 "@ + number::decimal(status as nat) + seq![' '] + reason + seq!['\r']
}

/// The header that states a length, without its line feed.
pub open spec fn length_header(length: usize) -> Seq<char> {
    "Content-Length: "@ + number::decimal(length as nat) + seq!['\r']
}

/// The header that says that the body comes in chunks, without its line feed.
pub open spec fn chunked_header() -> Seq<char> {
    "Transfer-Encoding: chunked\r"@
}

// ---------------------------------------------------------------------------
// Status lines
// ---------------------------------------------------------------------------

/// The longest start without white space, told by what stands in it and behind it.
proof fn lemma_first_run_is(s: Seq<char>, k: int)
    requires
        0 <= k <= s.len(),
        forall|j: int| 0 <= j < k ==> !text::white_space(#[trigger] s[j]),
        k < s.len() ==> text::white_space(s[k]),
    ensures
        text::first_run(s) == s.take(k),
    decreases k,
{
    if k > 0 {
        let rest = s.drop_first();
        assert(!text::white_space(s[0]));
        assert forall|j: int| 0 <= j < k - 1 implies !text::white_space(#[trigger] rest[j]) by {
            assert(rest[j] == s[j + 1]);
        }
        lemma_first_run_is(rest, k - 1);
        assert(seq![s[0]] + rest.take(k - 1) =~= s.take(k));
    } else {
        assert(s.take(0) =~= seq![]);
    }
}

/// The decimal form of a number holds no white space.
proof fn lemma_decimal_is_visible(n: nat)
    ensures
        number::decimal(n).len() > 0,
        forall|i: int|
            0 <= i < number::decimal(n).len() ==> !text::white_space(
                #[trigger] number::decimal(n)[i],
            ),
{
    let s = number::decimal(n);
    number::digits_write_their_number(n, 10);
    assert forall|i: int| 0 <= i < s.len() implies !text::white_space(#[trigger] s[i]) by {
        assert(number::digit_of(s[i]) < 10);
        chunked::lemma_digit_is_visible(s[i]);
    }
}

/// The status that a server writes is the one that is read, whatever the reason.
pub proof fn written_status_reads_back(status: u16, reason: Seq<char>)
    ensures
        http::status_code(status_line(status, reason).push('\n')) == Some(status),
{
    reveal_strlit("HTTP/1.1 ");
    reveal_strlit("HTTP/");
    let number = number::decimal(status as nat);
    let line = status_line(status, reason).push('\n');
    lemma_decimal_is_visible(status as nat);
    number::digits_read_back(status as nat, 10, u16::MAX as int);
    assert forall|j: int| 0 <= j < 8 implies !text::white_space(#[trigger] line[j]) by {
        assert(line[j] == ("HTTP/1.1 "@)[j]);
    }
    assert(line[8] == ' ');
    assert(text::trim_start(line) == line);
    lemma_first_run_is(line, 8);
    assert("HTTP/"@.is_prefix_of(line.take(8)));
    let rest = line.skip(8);
    let tail = rest.drop_first();
    let n = number.len() as int;
    assert(rest[0] == ' ');
    assert forall|j: int| 0 <= j < n implies #[trigger] tail[j] == number[j] by {
        assert(tail[j] == line[9 + j]);
    }
    assert forall|j: int| 0 <= j < n implies !text::white_space(#[trigger] tail[j]) by {
        assert(tail[j] == number[j]);
    }
    assert(tail[n] == line[9 + n]);
    assert(tail[n] == ' ');
    assert(!text::white_space(tail[0]));
    assert(text::trim_start(tail) == tail);
    assert(text::trim_start(rest) == tail);
    lemma_first_run_is(tail, n);
    assert(tail.take(n) =~= number);
    assert(text::words(line)[0] == line.take(8));
    assert(text::words(line)[1] == text::words(rest)[0]);
    assert(text::words(rest)[0] == number);
}

// ---------------------------------------------------------------------------
// Headers
// ---------------------------------------------------------------------------

proof fn lemma_lower_digit(c: char)
    requires
        number::digit_of(c) < 10,
    ensures
        text::lower(c) == c,
{
}

/// A `Content-Length` header states the length that was written, and says nothing of
/// chunks.
pub proof fn written_length_reads_back(length: usize, known: Option<usize>, is_chunked: bool)
    ensures
        ({
            let header = text::lowercase(text::trim(length_header(length).push('\n')));
            &&& header.len() > 0
            &&& http::length_after(header, known) == Some(length)
            &&& http::chunked_after(header, is_chunked) == is_chunked
        }),
{
    reveal_strlit("Content-Length: ");
    reveal_strlit("content-length:");
    reveal_strlit("transfer-encoding:");
    let number = number::decimal(length as nat);
    let n = number.len() as int;
    let line = length_header(length).push('\n');
    lemma_decimal_is_visible(length as nat);
    number::digits_write_their_number(length as nat, 10);
    number::digits_read_back(length as nat, 10, usize::MAX as int);
    assert(line[0] == 'C');
    assert(text::trim_start(line) == line);
    assert(line[16 + n - 1] == number[n - 1]);
    assert(line =~= "Content-Length: "@ + number + seq!['\r', '\n']);
    chunked::lemma_trim_end_is(line, 16 + n);
    let kept = text::trim(line);
    assert(kept =~= "Content-Length: "@ + number);
    let header = text::lowercase(kept);
    assert forall|i: int| 0 <= i < n implies #[trigger] header[16 + i] == number[i] by {
        assert(kept[16 + i] == number[i]);
        assert(number::digit_of(number[i]) < 10);
        lemma_lower_digit(number[i]);
    }
    assert forall|i: int| 0 <= i < 16 implies #[trigger] header[i] == text::lower(
        ("Content-Length: "@)[i],
    ) by {
        assert(kept[i] == ("Content-Length: "@)[i]);
    }
    assert("content-length:"@.is_prefix_of(header)) by {
        assert(header.take(15) =~= "content-length:"@);
        assert("content-length:"@ =~= header.subrange(0, 15));
    }
    assert(header[0] == 'c');
    let value = header.skip(15);
    assert(value[0] == ' ');
    assert(value.drop_first() =~= number) by {
        assert forall|i: int| 0 <= i < n implies #[trigger] value.drop_first()[i] == number[i] by {
            assert(value.drop_first()[i] == header[16 + i]);
        }
    }
    assert(!text::white_space(number[0]) && !text::white_space(number[n - 1]));
    assert(text::trim_start(number) == number);
    assert(text::trim_start(value) == number);
    assert(text::trim_end(number) == number);
    assert(("transfer-encoding:"@)[0] == 't');
}

/// A `Transfer-Encoding` header that names the coding `chunked` says so, and nothing of
/// a length.
pub proof fn written_coding_reads_back(known: Option<usize>, is_chunked: bool)
    ensures
        ({
            let header = text::lowercase(text::trim(chunked_header().push('\n')));
            &&& header.len() > 0
            &&& http::length_after(header, known) == known
            &&& http::chunked_after(header, is_chunked)
        }),
{
    reveal_strlit("Transfer-Encoding: chunked\r");
    reveal_strlit("content-length:");
    reveal_strlit("transfer-encoding:");
    reveal_strlit("chunked");
    let line = chunked_header().push('\n');
    assert(line[0] == 'T');
    assert(text::trim_start(line) == line);
    assert(line[25] == 'd');
    chunked::lemma_trim_end_is(line, 26);
    let kept = text::trim(line);
    assert(kept =~= line.take(26));
    let header = text::lowercase(kept);
    assert("transfer-encoding:"@.is_prefix_of(header)) by {
        assert("transfer-encoding:"@ =~= header.subrange(0, 18));
    }
    assert(header[0] == 't');
    assert(("content-length:"@)[0] == 'c');
    let value = header.skip(18);
    assert(value =~= seq![' '] + "chunked"@);
    text::lemma_char_index(value, ',', 8);
    assert(text::split(value, ',') =~= seq![value]);
    assert(value.drop_first() =~= "chunked"@);
    assert(text::trim_start("chunked"@) == "chunked"@);
    assert(text::trim_start(value) == "chunked"@);
    assert(text::trim_end("chunked"@) == "chunked"@);
    assert(text::trim(text::split(value, ',')[0]) == "chunked"@);
}

// ---------------------------------------------------------------------------
// Replies
// ---------------------------------------------------------------------------

proof fn lemma_length_header_is_writable(length: usize)
    requires
        length <= MAX_RPC_BODY_BYTES,
    ensures
        reply::writable_header(length_header(length)),
{
    written_length_reads_back(length, None, false);
    reveal_strlit("Content-Length: ");
    reveal_with_fuel(number::digits, 8);
    let number = number::decimal(length as nat);
    let line = length_header(length);
    assert(number.len() <= 7);
    number::digits_write_their_number(length as nat, 10);
    assert forall|i: int| 0 <= i < line.len() implies (#[trigger] line[i]) as u32 <= 'z' as u32
        && line[i] != '\n' by {
        if 16 <= i < 16 + number.len() {
            assert(line[i] == number[i - 16]);
            assert(number::digit_of(number[i - 16]) < 10);
            chunked::lemma_digit_is_visible(number[i - 16]);
        }
    }
    assert(is_ascii_chars(line));
    is_ascii_chars_encode_utf8(line);
}

proof fn lemma_chunked_header_is_writable()
    ensures
        reply::writable_header(chunked_header()),
{
    written_coding_reads_back(None, false);
    reveal_strlit("Transfer-Encoding: chunked\r");
    assert(is_ascii_chars(chunked_header()));
    is_ascii_chars_encode_utf8(chunked_header());
}

/// A server that writes a status, the length of its message and the message is
/// understood: the message is the result of the call when the status is 200, and
/// otherwise the call fails with that status and message.
pub proof fn written_sized_reply_reads_back(
    status: u16,
    reason: Seq<char>,
    text: Seq<char>,
    rest: Seq<u8>,
    closed: bool,
)
    requires
        chunked::writable_line(status_line(status, reason)),
        encode_utf8(text).len() <= MAX_RPC_BODY_BYTES,
    ensures
        http::response_run(
            ResponseState::Status,
            reply::head_bytes(
                status_line(status, reason),
                seq![length_header(encode_utf8(text).len() as usize)],
            ) + encode_utf8(text) + rest,
            closed,
        ) == ResponseRun::Done(http::rpc_result(status, Ok(text)), rest),
{
    let length = encode_utf8(text).len() as usize;
    let headers = seq![length_header(length)];
    written_status_reads_back(status, reason);
    written_length_reads_back(length, None, false);
    lemma_length_header_is_writable(length);
    assert(headers.drop_first() =~= seq![]);
    assert(reply::length_of(headers.drop_first(), Some(length)) == Some(length));
    assert(reply::chunked_of(headers.drop_first(), false) == false);
    assert(reply::length_of(headers, None) == Some(length));
    assert(!reply::chunked_of(headers, false));
    reply::sized_reply_reads_back(
        status,
        status_line(status, reason),
        headers,
        text,
        rest,
        closed,
    );
}

/// A server that writes a status and its message in chunks is understood in the same way.
pub proof fn written_chunked_reply_reads_back(
    status: u16,
    reason: Seq<char>,
    text: Seq<char>,
    chunks: Seq<Chunk>,
    trailers: Seq<Seq<char>>,
    rest: Seq<u8>,
    closed: bool,
)
    requires
        chunked::writable_line(status_line(status, reason)),
        encode_utf8(text).len() <= MAX_RPC_BODY_BYTES,
        chunked::joined(chunks) == encode_utf8(text),
        forall|i: int| 0 <= i < chunks.len() ==> chunked::writable_chunk(#[trigger] chunks[i]),
        trailers.len() <= MAX_TRAILER_LINES,
        forall|i: int|
            0 <= i < trailers.len() ==> reply::writable_header(#[trigger] trailers[i]),
    ensures
        http::response_run(
            ResponseState::Status,
            reply::head_bytes(status_line(status, reason), seq![chunked_header()])
                + chunked::chunked_bytes(chunks, trailers) + rest,
            closed,
        ) == ResponseRun::Done(http::rpc_result(status, Ok(text)), rest),
{
    let headers = seq![chunked_header()];
    written_status_reads_back(status, reason);
    written_coding_reads_back(None, false);
    lemma_chunked_header_is_writable();
    assert(headers.drop_first() =~= seq![]);
    assert(reply::chunked_of(headers.drop_first(), true));
    assert(reply::chunked_of(headers, false));
    reply::chunked_reply_reads_back(
        status,
        status_line(status, reason),
        headers,
        text,
        chunks,
        trailers,
        rest,
        closed,
    );
}

/// A reply with the status 200 gives its message, whether it comes with a length, in chunks
/// or up to the end of the stream.
pub proof fn message_of_a_reply_with_status_200_is_the_result(
    reason: Seq<char>,
    text: Seq<char>,
    chunks: Seq<Chunk>,
    trailers: Seq<Seq<char>>,
    rest: Seq<u8>,
    closed: bool,
)
    requires
        chunked::writable_line(status_line(200, reason)),
        encode_utf8(text).len() <= 1048576,
        chunked::joined(chunks) == encode_utf8(text),
        forall|i: int| 0 <= i < chunks.len() ==> chunked::writable_chunk(#[trigger] chunks[i]),
        trailers.len() <= 64,
        forall|i: int|
            0 <= i < trailers.len() ==> reply::writable_header(#[trigger] trailers[i]),
    ensures
        http::response_run(
            ResponseState::Status,
            reply::head_bytes(
                status_line(200, reason),
                seq![length_header(encode_utf8(text).len() as usize)],
            ) + encode_utf8(text) + rest,
            closed,
        ) == ResponseRun::Done(Ok(text), rest),
        http::response_run(
            ResponseState::Status,
            reply::head_bytes(status_line(200, reason), seq![chunked_header()])
                + chunked::chunked_bytes(chunks, trailers) + rest,
            closed,
        ) == ResponseRun::Done(Ok(text), rest),
        http::response_run(
            ResponseState::Status,
            reply::head_bytes(status_line(200, reason), seq![]) + encode_utf8(text),
            true,
        ) == ResponseRun::Done(Ok(text), Seq::empty()),
{
    written_sized_reply_reads_back(200, reason, text, rest, closed);
    written_chunked_reply_reads_back(200, reason, text, chunks, trailers, rest, closed);
    written_status_reads_back(200, reason);
    reply::unsized_reply_reads_back(200, status_line(200, reason), seq![], text);
}

/// A reply with any other status fails with that status and the trimmed message.
pub proof fn message_of_a_reply_with_another_status_is_the_failure(
    status: u16,
    reason: Seq<char>,
    text: Seq<char>,
    chunks: Seq<Chunk>,
    trailers: Seq<Seq<char>>,
    rest: Seq<u8>,
    closed: bool,
)
    requires
        status != 200,
        chunked::writable_line(status_line(status, reason)),
        encode_utf8(text).len() <= 1048576,
        chunked::joined(chunks) == encode_utf8(text),
        forall|i: int| 0 <= i < chunks.len() ==> chunked::writable_chunk(#[trigger] chunks[i]),
        trailers.len() <= 64,
        forall|i: int|
            0 <= i < trailers.len() ==> reply::writable_header(#[trigger] trailers[i]),
    ensures
        http::response_run(
            ResponseState::Status,
            reply::head_bytes(
                status_line(status, reason),
                seq![length_header(encode_utf8(text).len() as usize)],
            ) + encode_utf8(text) + rest,
            closed,
        ) == ResponseRun::Done(Err(RpcFailure::Status(status, text::trim(text))), rest),
        http::response_run(
            ResponseState::Status,
            reply::head_bytes(status_line(status, reason), seq![chunked_header()])
                + chunked::chunked_bytes(chunks, trailers) + rest,
            closed,
        ) == ResponseRun::Done(Err(RpcFailure::Status(status, text::trim(text))), rest),
        http::response_run(
            ResponseState::Status,
            reply::head_bytes(status_line(status, reason), seq![]) + encode_utf8(text),
            true,
        ) == ResponseRun::Done(Err(RpcFailure::Status(status, text::trim(text))), Seq::empty()),
{
    written_sized_reply_reads_back(status, reason, text, rest, closed);
    written_chunked_reply_reads_back(status, reason, text, chunks, trailers, rest, closed);
    written_status_reads_back(status, reason);
    reply::unsized_reply_reads_back(status, status_line(status, reason), seq![], text);
}

/// What becomes of a body becomes of the reply: with the status 200 its text is the result,
/// with any other it is the message of the failure, and a fault of the body is one of the
/// reply.
pub proof fn reply_ends_as_its_body_does(
    status: u16,
    stage: BodyStage,
    out: Seq<u8>,
    bytes: Seq<u8>,
    closed: bool,
)
    ensures
        ({
            let run = http::response_run(ResponseState::Body(status, stage, out), bytes, closed);
            match body::body_run(stage, out, bytes, closed) {
                BodyRun::Blocked(waiting, grown, rest) => run == ResponseRun::Blocked(
                    ResponseState::Body(status, waiting, grown),
                    rest,
                ),
                BodyRun::Done(Err(error), rest) => run == ResponseRun::Done(
                    Err(RpcFailure::Framing(error)),
                    rest,
                ),
                BodyRun::Done(Ok(text), rest) => run == ResponseRun::Done(
                    if status == 200 {
                        Ok(text)
                    } else {
                        Err(RpcFailure::Status(status, text::trim(text)))
                    },
                    rest,
                ),
            }
        }),
{
}

/// Reading the head of a reply waits for whole lines, and fails with the fault of a line.
pub proof fn head_is_read_by_lines(state: ResponseState, bytes: Seq<u8>, closed: bool)
    requires
        !(state is Body),
    ensures
        ({
            let run = http::response_run(state, bytes, closed);
            let rest = stream::after_line(bytes);
            if !stream::line_complete(bytes, closed) {
                run == ResponseRun::Blocked(state, bytes)
            } else {
                match stream::framing_line(bytes) {
                    Err(error) => run == ResponseRun::Done(Err(RpcFailure::Framing(error)), rest),
                    Ok(line) => match http::head_line(state, line) {
                        Err(error) => run == ResponseRun::Done(
                            Err(RpcFailure::Framing(error)),
                            rest,
                        ),
                        Ok(next) => run == http::response_run(next, rest, closed),
                    },
                }
            }
        }),
{
}

/// A line gives a status when its first word begins with `HTTP/` and its second is a number
/// in the range of `u16`; the number is the status.
pub proof fn status_is_the_second_word(
    before: Seq<char>,
    version: Seq<char>,
    gap: Seq<char>,
    code: Seq<char>,
    rest: Seq<char>,
)
    requires
        text::blank(before),
        text::solid(version),
        version.len() > 0,
        text::blank(gap),
        gap.len() > 0,
        text::solid(code),
        code.len() > 0,
        rest.len() > 0 ==> text::white_space(rest[0]),
    ensures
        http::status_code(before + version + gap + code + rest) == (if version.len() >= 5
            && version.take(5) == seq!['H', 'T', 'T', 'P', '/'] {
            match number::unsigned_number(code, 10, 65535) {
                Some(status) => Some(status as u16),
                None => None,
            }
        } else {
            None
        }),
        http::status_code(before) is None,
        http::status_code(before + version + gap) is None,
{
    let line = before + version + gap + code + rest;
    let tail = gap + code + rest;
    assert(gap[0] == tail[0]);
    assert(text::white_space(gap[0]));
    assert(line =~= before + version + tail);
    text::words_stand_between_white_space(before, version, tail);
    text::words_stand_between_white_space(gap, code, rest);
    text::words_stand_between_white_space(before, version, gap);
    assert(text::words(line)[0] == version);
    assert(text::words(line)[1] == code);
    reveal_strlit("HTTP/");
    assert("HTTP/"@ =~= seq!['H', 'T', 'T', 'P', '/']);
    assert("HTTP/"@.is_prefix_of(version) <==> version.len() >= 5 && version.take(5)
        == "HTTP/"@) by {
        if version.len() >= 5 {
            assert(version.take(5) =~= version.subrange(0, 5));
        }
    }
    assert(text::words(before + version + gap).len() == 1);
}

/// The first line of a reply gives its status, and is malformed without one.
pub proof fn first_line_gives_the_status(line: Seq<char>)
    ensures
        http::head_line(ResponseState::Status, line) == (match http::status_code(line) {
            Some(status) => Ok(ResponseState::Headers(status, None, false, 0)),
            None => Err(FramingError::MalformedStatusLine),
        }),
{
}

/// A blank line ends the headers; then comes a body in chunks, one with a length, or one up
/// to the end of the stream.
pub proof fn blank_line_ends_the_headers(
    status: u16,
    length: Option<usize>,
    is_chunked: bool,
    count: usize,
    line: Seq<char>,
)
    requires
        text::blank(line),
    ensures
        http::head_line(ResponseState::Headers(status, length, is_chunked, count), line) == Ok::<
            ResponseState,
            FramingError,
        >(
            ResponseState::Body(
                status,
                if is_chunked {
                    BodyStage::ChunkSize
                } else if length is Some {
                    BodyStage::Sized(length->0)
                } else {
                    BodyStage::ToEnd
                },
                Seq::empty(),
            ),
        ),
{
    text::trimmed_text_is_empty_only_where_it_is_blank(line);
}

/// A header counts as one of 128 that may come. It changes what is known of the length if
/// it is a `Content-Length` header: to the number that it gives, or to nothing when it gives
/// none. It makes the body a chunked one if it is a `Transfer-Encoding` header that lists
/// that coding. No other header changes anything.
pub proof fn headers_tell_length_and_coding(
    status: u16,
    length: Option<usize>,
    is_chunked: bool,
    count: usize,
    line: Seq<char>,
)
    requires
        !text::blank(line),
    ensures
        ({
            let header = text::lowercase(text::trim(line));
            let next = http::head_line(
                ResponseState::Headers(status, length, is_chunked, count),
                line,
            );
            let codings = text::split(header.skip(18), ',');
            if count >= 128 {
                next == Err::<ResponseState, FramingError>(FramingError::TooManyHeaders)
            } else {
                next == Ok::<ResponseState, FramingError>(
                    ResponseState::Headers(
                        status,
                        if "content-length:"@.is_prefix_of(header) {
                            match number::unsigned_number(
                                text::trim(header.skip(15)),
                                10,
                                usize::MAX as int,
                            ) {
                                Some(n) => Some(n as usize),
                                None => None,
                            }
                        } else {
                            length
                        },
                        is_chunked || ("transfer-encoding:"@.is_prefix_of(header) && exists|i: int|
                            0 <= i < codings.len() && text::trim(#[trigger] codings[i])
                                == "chunked"@),
                        (count + 1) as usize,
                    ),
                )
            }
        }),
{
    reveal_strlit("content-length:");
    reveal_strlit("transfer-encoding:");
    text::trimmed_text_is_empty_only_where_it_is_blank(line);
}

/// A server is up when its reply starts with the status 200, and with that alone.
pub proof fn server_is_up_on_status_200_alone(
    status: u16,
    reason: Seq<char>,
    rest: Seq<u8>,
    closed: bool,
)
    requires
        chunked::writable_line(status_line(status, reason)),
    ensures
        http::health(chunked::line_bytes(status_line(status, reason)) + rest, closed) == Some(
            status == 200,
        ),
{
    written_status_reads_back(status, reason);
    chunked::sent_line_reads_back(status_line(status, reason), rest, closed);
}

/// A server is not up when its reply has no whole status line, none that is text, or none
/// that gives the status 200. Nothing is known of it before the line is complete.
pub proof fn server_is_not_up_without_status_200(bytes: Seq<u8>, closed: bool)
    ensures
        !stream::line_complete(bytes, closed) <==> http::health(bytes, closed) is None,
        stream::line_complete(bytes, closed) ==> match stream::framing_line(bytes) {
            Err(_) => http::health(bytes, closed) == Some(false),
            Ok(line) => match http::status_code(line) {
                Some(status) => http::health(bytes, closed) == Some(status == 200),
                None => http::health(bytes, closed) == Some(false),
            },
        },
        bytes.len() == 0 && closed ==> http::health(bytes, closed) == Some(false),
{
    if bytes.len() == 0 && closed {
        stream::unended_line_runs_to_the_end(bytes, closed);
        let none: Seq<char> = seq![];
        assert(bytes =~= seq![]);
        if valid_utf8(bytes) {
            assert(decode_utf8(bytes) =~= none);
            text::words_stand_between_white_space(none, seq!['x'], none);
        }
    }
}

/// The request that asks whether a server is up: three lines and a blank one.
#[verifier::rlimit(40)]
pub proof fn health_request_has_these_lines(port: u16)
    ensures
        text::lines(http::healthz_request_text(port)) == seq![
            "GET /healthz HTTP/1.1"@,
            "Host: 127.0.0.1:"@ + number::decimal(port as nat),
            "Connection: close"@,
            ""@,
        ],
{
    reveal_strlit("GET /healthz HTTP/1.1\r\nHost: 127.0.0.1:");
    reveal_strlit("\r\nConnection: close\r\n\r\n");
    reveal_strlit("GET /healthz HTTP/1.1");
    reveal_strlit("Host: 127.0.0.1:");
    reveal_strlit("Connection: close");
    reveal_strlit("");
    let number = number::decimal(port as nat);
    let host = "Host: 127.0.0.1:"@ + number;
    let end = seq!['\r', '\n'];
    let none: Seq<char> = seq![];
    lemma_decimal_has_no_line_feed(port as nat);
    let four = ""@ + end + none;
    let three = "Connection: close"@ + end + four;
    let two = host + end + three;
    let one = "GET /healthz HTTP/1.1"@ + end + two;
    assert(http::healthz_request_text(port) =~= one);
    assert forall|i: int| 0 <= i < host.len() implies #[trigger] host[i] != '\n' by {
        if i >= 16 {
            assert(host[i] == number[i - 16]);
        }
    }
    text::lines_end_at_line_feeds("GET /healthz HTTP/1.1"@, two);
    text::lines_end_at_line_feeds(host, three);
    text::lines_end_at_line_feeds("Connection: close"@, four);
    text::lines_end_at_line_feeds(""@, none);
    text::lines_end_at_line_feeds(none, none);
    assert(text::lines(one) =~= seq![
        "GET /healthz HTTP/1.1"@,
        host,
        "Connection: close"@,
        ""@,
    ]);
}

proof fn lemma_decimal_has_no_line_feed(n: nat)
    ensures
        text::lacks(number::decimal(n), '\n'),
{
    number::decimal_form_is_the_shortest(n);
}

/// The request that calls a method: six lines that name the method, the server and the
/// length of the message in bytes, a blank line, and then the message as it is.
#[verifier::rlimit(40)]
pub proof fn call_request_has_these_lines(port: u16, method: Seq<char>, message: Seq<char>)
    requires
        text::lacks(method, '\n'),
    ensures
        ({
            let request = http::rpc_request_text(port, method, message);
            let n = request.len() - message.len();
            &&& request.skip(n) == message
            &&& text::lines(request.take(n)) == seq![
                "POST /exa.language_server_pb.LanguageServerService/"@ + method + " HTTP/1.1"@,
                "Host: 127.0.0.1:"@ + number::decimal(port as nat),
                "Content-Type: application/json"@,
                "Connect-Protocol-Version: 1"@,
                "Content-Length: "@ + number::decimal(encode_utf8(message).len()),
                "Connection: close"@,
                ""@,
            ]
        }),
{
    reveal_strlit("POST /exa.language_server_pb.LanguageServerService/");
    reveal_strlit(" HTTP/1.1\r\nHost: 127.0.0.1:");
    reveal_strlit(
        "\r\nContent-Type: application/json\r\nConnect-Protocol-Version: 1\r\nContent-Length: ",
    );
    reveal_strlit("\r\nConnection: close\r\n\r\n");
    reveal_strlit(" HTTP/1.1");
    reveal_strlit("Host: 127.0.0.1:");
    reveal_strlit("Content-Type: application/json");
    reveal_strlit("Connect-Protocol-Version: 1");
    reveal_strlit("Content-Length: ");
    reveal_strlit("Connection: close");
    reveal_strlit("");
    let number = number::decimal(port as nat);
    let size = number::decimal(encode_utf8(message).len());
    let first = "POST /exa.language_server_pb.LanguageServerService/"@ + method + " HTTP/1.1"@;
    let host = "Host: 127.0.0.1:"@ + number;
    let length = "Content-Length: "@ + size;
    let end = seq!['\r', '\n'];
    let none: Seq<char> = seq![];
    lemma_decimal_has_no_line_feed(port as nat);
    lemma_decimal_has_no_line_feed(encode_utf8(message).len());
    let seven = ""@ + end + none;
    let six = "Connection: close"@ + end + seven;
    let five = length + end + six;
    let four = "Connect-Protocol-Version: 1"@ + end + five;
    let three = "Content-Type: application/json"@ + end + four;
    let two = host + end + three;
    let one = first + end + two;
    let request = http::rpc_request_text(port, method, message);
    call_request_is_put_together(port, method, message);
    let n = request.len() - message.len();
    assert(request =~= one + message);
    assert(request.skip(n) =~= message);
    assert(request.take(n) =~= one);
    assert forall|i: int| 0 <= i < first.len() implies #[trigger] first[i] != '\n' by {
        if 51 <= i < 51 + method.len() {
            assert(first[i] == method[i - 51]);
        }
    }
    assert forall|i: int| 0 <= i < host.len() implies #[trigger] host[i] != '\n' by {
        if i >= 16 {
            assert(host[i] == number[i - 16]);
        }
    }
    assert forall|i: int| 0 <= i < length.len() implies #[trigger] length[i] != '\n' by {
        if i >= 16 {
            assert(length[i] == size[i - 16]);
        }
    }
    text::lines_end_at_line_feeds(first, two);
    text::lines_end_at_line_feeds(host, three);
    text::lines_end_at_line_feeds("Content-Type: application/json"@, four);
    text::lines_end_at_line_feeds("Connect-Protocol-Version: 1"@, five);
    text::lines_end_at_line_feeds(length, six);
    text::lines_end_at_line_feeds("Connection: close"@, seven);
    text::lines_end_at_line_feeds(""@, none);
    text::lines_end_at_line_feeds(none, none);
    assert(text::lines(one) =~= seq![
        first,
        host,
        "Content-Type: application/json"@,
        "Connect-Protocol-Version: 1"@,
        length,
        "Connection: close"@,
        ""@,
    ]);
}

/// The request that calls a method is put together of these parts, whatever the method is.
#[verifier::rlimit(40)]
pub proof fn call_request_is_put_together(port: u16, method: Seq<char>, message: Seq<char>)
    ensures
        ({
            let end = seq!['\r', '\n'];
            let none: Seq<char> = seq![];
            http::rpc_request_text(port, method, message)
                == "POST /exa.language_server_pb.LanguageServerService/"@ + method + " HTTP/1.1"@
                + end + ("Host: 127.0.0.1:"@ + number::decimal(port as nat) + end + (
            "Content-Type: application/json"@ + end + ("Connect-Protocol-Version: 1"@ + end + (
            "Content-Length: "@ + number::decimal(encode_utf8(message).len()) + end + (
            "Connection: close"@ + end + (""@ + end + none)))))) + message
        }),
{
    reveal_strlit(" HTTP/1.1\r\nHost: 127.0.0.1:");
    reveal_strlit(
        "\r\nContent-Type: application/json\r\nConnect-Protocol-Version: 1\r\nContent-Length: ",
    );
    reveal_strlit("\r\nConnection: close\r\n\r\n");
    reveal_strlit(" HTTP/1.1");
    reveal_strlit("Host: 127.0.0.1:");
    reveal_strlit("Content-Type: application/json");
    reveal_strlit("Connect-Protocol-Version: 1");
    reveal_strlit("Content-Length: ");
    reveal_strlit("Connection: close");
    reveal_strlit("");
    let end = seq!['\r', '\n'];
    assert(" HTTP/1.1\r\nHost: 127.0.0.1:"@ =~= " HTTP/1.1"@ + end + "Host: 127.0.0.1:"@);
    assert("\r\nContent-Type: application/json\r\nConnect-Protocol-Version: 1\r\nContent-Length: "@
        =~= end + "Content-Type: application/json"@ + end + "Connect-Protocol-Version: 1"@ + end
        + "Content-Length: "@);
    assert("\r\nConnection: close\r\n\r\n"@ =~= end + "Connection: close"@ + end + end);
    let none: Seq<char> = seq![];
    assert(http::rpc_request_text(port, method, message)
        =~= "POST /exa.language_server_pb.LanguageServerService/"@ + method + " HTTP/1.1"@ + end + (
    "Host: 127.0.0.1:"@ + number::decimal(port as nat) + end + ("Content-Type: application/json"@
        + end + ("Connect-Protocol-Version: 1"@ + end + ("Content-Length: "@ + number::decimal(
        encode_utf8(message).len(),
    ) + end + ("Connection: close"@ + end + (""@ + end + none)))))) + message);
}

/// The message of a failed call names the method and the status, and ends with what the
/// server said; a fault of the framing tells itself.
pub proof fn failed_call_tells_method_and_status(
    method: Seq<char>,
    status: u16,
    said: Seq<char>,
    fault: FramingError,
)
    ensures
        RpcFailure::Status(status, said).message_text(method) == "agy "@ + method
            + " returned HTTP "@ + number::decimal(status as nat) + ": "@ + said,
        RpcFailure::Framing(fault).message_text(method) == fault.message_text(),
{
}

/// An error stands for the fault, or for the status with the message that it holds.
pub proof fn error_is_the_fault_or_the_status(fault: FramingError, status: u16, said: String)
    ensures
        RpcError::Framing(fault)@ == RpcFailure::Framing(fault),
        RpcError::Status(status, said)@ == RpcFailure::Status(status, said@),
{
}

} // verus!
