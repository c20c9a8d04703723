//! The body of a reply: sized, chunked, or running to the end of the stream.

use vstd::prelude::*;
use vstd::utf8::*;

use crate::number::{self, parse_unsigned};
use crate::stream::{
    self, read_framing_line, text_from_utf8, ByteStream, FramingError, Progress,
    MAX_FRAMING_LINE_BYTES,
};
use crate::text::{self, chars_of, same_text, split_at, trimmed};

verus! {

/// Upper bound on the length of a body, to bound the memory that a hostile peer
/// can make the reader use.
pub const MAX_RPC_BODY_BYTES: usize = 1024 * 1024;

/// How many trailer lines may follow the last chunk.
pub const MAX_TRAILER_LINES: usize = 64;

/// What the reader of a body expects next.
#[derive(Debug, Clone, Copy, PartialEq, Eq, Structural)]
pub enum BodyStage {
    /// The line that gives the size of a chunk.
    ChunkSize,
    /// A chunk of this many bytes.
    ChunkData(usize),
    /// The end of the line behind a chunk.
    ChunkEnd,
    /// Trailer lines, after this many of them.
    Trailers(usize),
    /// A body of this many bytes.
    Sized(usize),
    /// Bytes up to the end of the stream.
    ToEnd,
}

/// The first stage of a body, by the two headers that say how it is framed.
pub open spec fn first_stage(content_length: Option<usize>, chunked: bool) -> BodyStage {
    if chunked {
        BodyStage::ChunkSize
    } else {
        match content_length {
            Some(length) => BodyStage::Sized(length),
            None => BodyStage::ToEnd,
        }
    }
}

/// The size that the line in front of a chunk gives: a hexadecimal number, up to
/// the first semicolon.
pub open spec fn chunk_size(line: Seq<char>) -> Option<int> {
    let size = text::trim(text::split(text::trim(line), ';')[0]);
    number::unsigned_number(size, 16, usize::MAX as int)
}

/// The text of a body that has been read whole.
pub open spec fn body_text(bytes: Seq<u8>) -> Result<Seq<char>, FramingError> {
    if valid_utf8(bytes) {
        Ok(decode_utf8(bytes))
    } else {
        Err(FramingError::BodyNotUtf8)
    }
}

/// One step of reading a body.
pub enum BodyStep {
    /// The bytes do not suffice for a step.
    Blocked,
    /// The next stage, the body so far, and the bytes left.
    Next(BodyStage, Seq<u8>, Seq<u8>),
    /// The result, and the bytes left.
    Done(Result<Seq<char>, FramingError>, Seq<u8>),
}

/// What becomes of a body when the reader runs as far as the bytes allow.
pub enum BodyRun {
    /// The stage it waits in, the body so far, and the bytes left.
    Blocked(BodyStage, Seq<u8>, Seq<u8>),
    /// The result, and the bytes left.
    Done(Result<Seq<char>, FramingError>, Seq<u8>),
}

/// The step for a stage that reads a line.
pub open spec fn line_step(
    stage: BodyStage,
    out: Seq<u8>,
    line: Seq<char>,
    rest: Seq<u8>,
) -> BodyStep {
    match stage {
        BodyStage::ChunkSize => match chunk_size(line) {
            None => BodyStep::Done(Err(FramingError::MalformedChunkSize), rest),
            Some(size) => if size == 0 {
                BodyStep::Next(BodyStage::Trailers(0), out, rest)
            } else if size > MAX_RPC_BODY_BYTES || out.len() + size > MAX_RPC_BODY_BYTES {
                BodyStep::Done(Err(FramingError::BodyTooLarge), rest)
            } else {
                BodyStep::Next(BodyStage::ChunkData(size as usize), out, rest)
            },
        },
        BodyStage::ChunkEnd => if line == "\r\n"@ || line == "\n"@ {
            BodyStep::Next(BodyStage::ChunkSize, out, rest)
        } else {
            BodyStep::Done(Err(FramingError::MalformedChunkEnd), rest)
        },
        BodyStage::Trailers(count) => if text::trim(line).len() == 0 {
            BodyStep::Done(body_text(out), rest)
        } else if count + 1 > MAX_TRAILER_LINES {
            BodyStep::Done(Err(FramingError::TooManyTrailers), rest)
        } else {
            BodyStep::Next(BodyStage::Trailers((count + 1) as usize), out, rest)
        },
        _ => BodyStep::Blocked,
    }
}

/// One step of reading a body in the stage `stage`, with the body so far `out`,
/// when `bytes` have arrived.
pub open spec fn body_step(
    stage: BodyStage,
    out: Seq<u8>,
    bytes: Seq<u8>,
    closed: bool,
) -> BodyStep {
    match stage {
        BodyStage::ChunkSize | BodyStage::ChunkEnd | BodyStage::Trailers(_) => {
            if !stream::line_complete(bytes, closed) {
                BodyStep::Blocked
            } else {
                match stream::framing_line(bytes) {
                    Err(error) => BodyStep::Done(Err(error), stream::after_line(bytes)),
                    Ok(line) => line_step(stage, out, line, stream::after_line(bytes)),
                }
            }
        },
        BodyStage::ChunkData(size) => if bytes.len() >= size {
            BodyStep::Next(
                BodyStage::ChunkEnd,
                out + bytes.take(size as int),
                bytes.skip(size as int),
            )
        } else if closed {
            BodyStep::Done(Err(FramingError::UnexpectedEnd), bytes)
        } else {
            BodyStep::Blocked
        },
        BodyStage::Sized(length) => if length > MAX_RPC_BODY_BYTES {
            BodyStep::Done(Err(FramingError::BodyTooLarge), bytes)
        } else if bytes.len() >= length {
            BodyStep::Done(body_text(bytes.take(length as int)), bytes.skip(length as int))
        } else if closed {
            BodyStep::Done(Err(FramingError::UnexpectedEnd), bytes)
        } else {
            BodyStep::Blocked
        },
        BodyStage::ToEnd => if bytes.len() > MAX_RPC_BODY_BYTES {
            let read = bytes.take(MAX_RPC_BODY_BYTES + 1);
            BodyStep::Done(
                if valid_utf8(read) {
                    Err(FramingError::BodyTooLarge)
                } else {
                    Err(FramingError::StreamNotUtf8)
                },
                bytes.skip(MAX_RPC_BODY_BYTES + 1),
            )
        } else if closed {
            BodyStep::Done(
                if valid_utf8(bytes) {
                    Ok(decode_utf8(bytes))
                } else {
                    Err(FramingError::StreamNotUtf8)
                },
                Seq::empty(),
            )
        } else {
            BodyStep::Blocked
        },
    }
}

/// The place of a stage between two chunks: later stages come lower.
pub open spec fn stage_rank(stage: BodyStage) -> nat {
    match stage {
        BodyStage::ChunkSize => 2,
        BodyStage::ChunkData(_) => 1,
        BodyStage::Trailers(_) => 1,
        _ => 0,
    }
}

/// Reading a body in the stage `stage`, with the body so far `out`, as far as the
/// bytes `bytes` allow. With `closed` they are all that will ever arrive.
pub open spec fn body_run(stage: BodyStage, out: Seq<u8>, bytes: Seq<u8>, closed: bool) -> BodyRun
    decreases bytes.len(), stage_rank(stage),
    via body_run_decreases
{
    match body_step(stage, out, bytes, closed) {
        BodyStep::Blocked => BodyRun::Blocked(stage, out, bytes),
        BodyStep::Done(result, rest) => BodyRun::Done(result, rest),
        BodyStep::Next(next, grown, rest) => body_run(next, grown, rest, closed),
    }
}

#[via_fn]
proof fn body_run_decreases(stage: BodyStage, out: Seq<u8>, bytes: Seq<u8>, closed: bool) {
    lemma_step_advances(stage, out, bytes, closed);
}

proof fn lemma_step_advances(stage: BodyStage, out: Seq<u8>, bytes: Seq<u8>, closed: bool)
    ensures
        body_step(stage, out, bytes, closed) matches BodyStep::Next(next, _, rest) ==> {
            ||| rest.len() < bytes.len()
            ||| rest.len() == bytes.len() && stage_rank(next) < stage_rank(stage)
        },
{
    stream::lemma_line_length(bytes, MAX_FRAMING_LINE_BYTES as nat);
    if stream::line_length(bytes, MAX_FRAMING_LINE_BYTES as nat) == 0 {
        assert(stream::raw_line(bytes) =~= Seq::<u8>::empty());
        assert(decode_utf8(stream::raw_line(bytes)) =~= Seq::<char>::empty());
        reveal_strlit("\r\n");
        reveal_strlit("\n");
    }
}

// ---------------------------------------------------------------------------
// The reader
// ---------------------------------------------------------------------------

/// What holds between two steps: the body so far, and the chunk that is due, stay
/// within the limit.
pub open spec fn stage_valid(stage: BodyStage, out: Seq<u8>) -> bool {
    &&& out.len() <= MAX_RPC_BODY_BYTES
    &&& match stage {
        BodyStage::ChunkData(size) => 0 < size && out.len() + size <= MAX_RPC_BODY_BYTES,
        BodyStage::Trailers(count) => count <= MAX_TRAILER_LINES,
        _ => true,
    }
}

/// Whether `r` is the text, or the fault, `result`.
pub open spec fn same_result(
    r: Result<String, FramingError>,
    result: Result<Seq<char>, FramingError>,
) -> bool {
    match r {
        Ok(text) => result == Ok::<Seq<char>, FramingError>(text@),
        Err(error) => result == Err::<Seq<char>, FramingError>(error),
    }
}

/// Reads a body from the bytes that have arrived, as often as more arrive.
#[derive(Debug)]
pub struct BodyReader {
    stage: BodyStage,
    out: Vec<u8>,
}

/// What one step of the reader came to.
enum Advance {
    Blocked,
    Next(BodyStage),
    Done(Result<String, FramingError>),
}

/// The size that the line in front of a chunk gives.
fn parse_chunk_size(line: &str) -> (r: Option<usize>)
    ensures
        match r {
            Some(size) => chunk_size(line@) == Some(size as int),
            None => chunk_size(line@) is None,
        },
{
    let chars: Vec<char> = chars_of(line);
    let pieces = split_at(trimmed(chars.as_slice()), ';');
    match parse_unsigned(trimmed(pieces[0]), 16, usize::MAX as u64) {
        Some(size) => Some(size as usize),
        None => None,
    }
}

/// The text of a body that has been read whole.
fn finish_body(bytes: Vec<u8>) -> (r: Result<String, FramingError>)
    ensures
        same_result(r, body_text(bytes@)),
{
    match text_from_utf8(bytes) {
        Some(text) => Ok(text),
        None => Err(FramingError::BodyNotUtf8),
    }
}

/// The step for a stage that reads a line, once the line is there.
fn advance_line(
    stage: BodyStage,
    out: &mut Vec<u8>,
    line: &str,
    rest: Ghost<Seq<u8>>,
) -> (r: Advance)
    requires
        stage_valid(stage, old(out)@),
        stage is ChunkSize || stage is ChunkEnd || stage is Trailers,
    ensures
        match r {
            Advance::Blocked => false,
            Advance::Next(next) => {
                &&& line_step(stage, old(out)@, line@, rest@) == BodyStep::Next(
                    next,
                    final(out)@,
                    rest@,
                )
                &&& stage_valid(next, final(out)@)
            },
            Advance::Done(result) => {
                &&& line_step(stage, old(out)@, line@, rest@) matches BodyStep::Done(expected, left)
                &&& same_result(result, expected)
                &&& left == rest@
                &&& final(out)@.len() <= MAX_RPC_BODY_BYTES
            },
        },
{
    match stage {
        BodyStage::ChunkSize => match parse_chunk_size(line) {
            None => Advance::Done(Err(FramingError::MalformedChunkSize)),
            Some(size) => if size == 0 {
                Advance::Next(BodyStage::Trailers(0))
            } else if size > MAX_RPC_BODY_BYTES || out.len() + size > MAX_RPC_BODY_BYTES {
                Advance::Done(Err(FramingError::BodyTooLarge))
            } else {
                Advance::Next(BodyStage::ChunkData(size))
            },
        },
        BodyStage::ChunkEnd => {
            let chars: Vec<char> = chars_of(line);
            if same_text(chars.as_slice(), chars_of("\r\n").as_slice()) || same_text(
                chars.as_slice(),
                chars_of("\n").as_slice(),
            ) {
                Advance::Next(BodyStage::ChunkSize)
            } else {
                Advance::Done(Err(FramingError::MalformedChunkEnd))
            }
        },
        BodyStage::Trailers(count) => {
            let chars: Vec<char> = chars_of(line);
            if trimmed(chars.as_slice()).len() == 0 {
                let mut body: Vec<u8> = Vec::new();
                std::mem::swap(&mut body, out);
                Advance::Done(finish_body(body))
            } else if count + 1 > MAX_TRAILER_LINES {
                Advance::Done(Err(FramingError::TooManyTrailers))
            } else {
                Advance::Next(BodyStage::Trailers(count + 1))
            }
        },
        _ => Advance::Blocked,
    }
}

/// One step of the reader.
fn advance(stage: BodyStage, out: &mut Vec<u8>, input: &mut ByteStream) -> (r: Advance)
    requires
        stage_valid(stage, old(out)@),
    ensures
        final(input).is_closed() == old(input).is_closed(),
        match r {
            Advance::Blocked => {
                &&& body_step(stage, old(out)@, old(input).pending(), old(input).is_closed())
                    is Blocked
                &&& final(out)@ == old(out)@
                &&& final(input).pending() == old(input).pending()
            },
            Advance::Next(next) => {
                &&& body_step(stage, old(out)@, old(input).pending(), old(input).is_closed())
                    == BodyStep::Next(next, final(out)@, final(input).pending())
                &&& stage_valid(next, final(out)@)
            },
            Advance::Done(result) => {
                &&& body_step(stage, old(out)@, old(input).pending(), old(input).is_closed())
                    matches BodyStep::Done(expected, rest)
                &&& same_result(result, expected)
                &&& rest == final(input).pending()
                &&& final(out)@.len() <= MAX_RPC_BODY_BYTES
            },
        },
{
    match stage {
        BodyStage::ChunkSize | BodyStage::ChunkEnd | BodyStage::Trailers(_) => {
            match read_framing_line(input) {
                Progress::Pending => Advance::Blocked,
                Progress::Ready(Err(error)) => Advance::Done(Err(error)),
                Progress::Ready(Ok(line)) => advance_line(
                    stage,
                    out,
                    line.as_str(),
                    Ghost(input.pending()),
                ),
            }
        },
        BodyStage::ChunkData(size) => if input.available() >= size {
            let mut chunk: Vec<u8> = input.take(size);
            out.append(&mut chunk);
            Advance::Next(BodyStage::ChunkEnd)
        } else if input.closed() {
            Advance::Done(Err(FramingError::UnexpectedEnd))
        } else {
            Advance::Blocked
        },
        BodyStage::Sized(length) => if length > MAX_RPC_BODY_BYTES {
            Advance::Done(Err(FramingError::BodyTooLarge))
        } else if input.available() >= length {
            Advance::Done(finish_body(input.take(length)))
        } else if input.closed() {
            Advance::Done(Err(FramingError::UnexpectedEnd))
        } else {
            Advance::Blocked
        },
        BodyStage::ToEnd => if input.available() > MAX_RPC_BODY_BYTES {
            match text_from_utf8(input.take(MAX_RPC_BODY_BYTES + 1)) {
                Some(_) => Advance::Done(Err(FramingError::BodyTooLarge)),
                None => Advance::Done(Err(FramingError::StreamNotUtf8)),
            }
        } else if input.closed() {
            let available: usize = input.available();
            let ghost bytes = input.pending();
            let all: Vec<u8> = input.take(available);
            assert(all@ =~= bytes);
            assert(input.pending() =~= Seq::<u8>::empty());
            match text_from_utf8(all) {
                Some(text) => Advance::Done(Ok(text)),
                None => Advance::Done(Err(FramingError::StreamNotUtf8)),
            }
        } else {
            Advance::Blocked
        },
    }
}

impl BodyReader {
    #[verifier::type_invariant]
    spec fn within_limit(self) -> bool {
        stage_valid(self.stage, self.out@)
    }

    /// What the reader expects next.
    pub closed spec fn stage(&self) -> BodyStage {
        self.stage
    }

    /// The part of a chunked body that was read.
    pub closed spec fn so_far(&self) -> Seq<u8> {
        self.out@
    }

    /// A reader for a body that is framed as the two headers say.
    pub fn new(content_length: Option<usize>, chunked: bool) -> (r: Self)
        ensures
            r.stage() == first_stage(content_length, chunked),
            r.so_far() == Seq::<u8>::empty(),
    {
        let stage = if chunked {
            BodyStage::ChunkSize
        } else {
            match content_length {
                Some(length) => BodyStage::Sized(length),
                None => BodyStage::ToEnd,
            }
        };
        BodyReader { stage, out: Vec::new() }
    }

    /// Reads on, as far as the bytes that have arrived allow.
    pub fn poll(&mut self, input: &mut ByteStream) -> (r: Progress<Result<String, FramingError>>)
        ensures
            final(input).is_closed() == old(input).is_closed(),
            ({
                let run = body_run(
                    old(self).stage(),
                    old(self).so_far(),
                    old(input).pending(),
                    old(input).is_closed(),
                );
                match r {
                    Progress::Pending => run == BodyRun::Blocked(
                        final(self).stage(),
                        final(self).so_far(),
                        final(input).pending(),
                    ),
                    Progress::Ready(result) => {
                        &&& run matches BodyRun::Done(expected, rest)
                        &&& same_result(result, expected)
                        &&& rest == final(input).pending()
                    },
                }
            }),
    {
        proof {
            use_type_invariant(&*self);
        }
        let mut stage: BodyStage = self.stage;
        let mut out: Vec<u8> = Vec::new();
        std::mem::swap(&mut out, &mut self.out);
        loop
            invariant
                stage_valid(stage, out@),
                input.is_closed() == old(input).is_closed(),
                body_run(
                    old(self).stage(),
                    old(self).so_far(),
                    old(input).pending(),
                    old(input).is_closed(),
                ) == body_run(stage, out@, input.pending(), input.is_closed()),
            decreases input.pending().len(), stage_rank(stage),
        {
            proof {
                lemma_step_advances(stage, out@, input.pending(), input.is_closed());
            }
            match advance(stage, &mut out, input) {
                Advance::Blocked => {
                    *self = BodyReader { stage, out };
                    return Progress::Pending;
                },
                Advance::Next(next) => {
                    stage = next;
                },
                Advance::Done(result) => {
                    *self = BodyReader { stage: BodyStage::ToEnd, out: Vec::new() };
                    return Progress::Ready(result);
                },
            }
        }
    }
}

/// Reads a body from bytes that are all there is of the reply.
pub fn read_body(
    reader: &mut ByteStream,
    content_length: Option<usize>,
    chunked: bool,
) -> (r: Result<String, FramingError>)
    ensures
        final(reader).is_closed(),
        ({
            let run = body_run(
                first_stage(content_length, chunked),
                Seq::empty(),
                old(reader).pending(),
                true,
            );
            &&& run matches BodyRun::Done(expected, rest)
            &&& same_result(r, expected)
            &&& rest == final(reader).pending()
        }),
{
    proof {
        closed_stream_finishes_body(
            first_stage(content_length, chunked),
            Seq::empty(),
            reader.pending(),
        );
    }
    reader.close();
    let mut body = BodyReader::new(content_length, chunked);
    match body.poll(reader) {
        Progress::Ready(result) => result,
        Progress::Pending => Err(FramingError::UnexpectedEnd),
    }
}

// ---------------------------------------------------------------------------
// Laws
// ---------------------------------------------------------------------------

/// Once the peer has sent its last byte, reading a body comes to an end.
pub proof fn closed_stream_finishes_body(stage: BodyStage, out: Seq<u8>, bytes: Seq<u8>)
    ensures
        body_run(stage, out, bytes, true) is Done,
    decreases bytes.len(), stage_rank(stage),
{
    lemma_step_advances(stage, out, bytes, true);
    if let BodyStep::Next(next, grown, rest) = body_step(stage, out, bytes, true) {
        closed_stream_finishes_body(next, grown, rest);
    }
}

/// A step that the bytes allowed is the same whatever arrives after them.
proof fn lemma_step_is_final(
    stage: BodyStage,
    out: Seq<u8>,
    bytes: Seq<u8>,
    more: Seq<u8>,
    closed: bool,
)
    ensures
        match body_step(stage, out, bytes, false) {
            BodyStep::Blocked => true,
            BodyStep::Next(next, grown, rest) => body_step(stage, out, bytes + more, closed)
                == BodyStep::Next(next, grown, rest + more),
            BodyStep::Done(result, rest) => body_step(stage, out, bytes + more, closed)
                == BodyStep::Done(result, rest + more),
        },
{
    let whole = bytes + more;
    match stage {
        BodyStage::ChunkSize | BodyStage::ChunkEnd | BodyStage::Trailers(_) => {
            if stream::line_complete(bytes, false) {
                stream::complete_line_is_final(bytes, more);
            }
        },
        BodyStage::ChunkData(size) => {
            if bytes.len() >= size {
                assert(whole.take(size as int) =~= bytes.take(size as int));
                assert(whole.skip(size as int) =~= bytes.skip(size as int) + more);
            }
        },
        BodyStage::Sized(length) => {
            if bytes.len() >= length {
                assert(whole.take(length as int) =~= bytes.take(length as int));
                assert(whole.skip(length as int) =~= bytes.skip(length as int) + more);
            }
        },
        BodyStage::ToEnd => {
            let n = MAX_RPC_BODY_BYTES + 1;
            if bytes.len() >= n {
                assert(whole.take(n) =~= bytes.take(n));
                assert(whole.skip(n) =~= bytes.skip(n) + more);
            }
        },
    }
}

/// The result does not depend on how the bytes of a body arrive: reading what has
/// arrived, and then the rest, gives what reading all of it at once gives.
pub proof fn body_does_not_depend_on_arrival(
    stage: BodyStage,
    out: Seq<u8>,
    bytes: Seq<u8>,
    more: Seq<u8>,
    closed: bool,
)
    ensures
        match body_run(stage, out, bytes, false) {
            BodyRun::Done(result, rest) => body_run(stage, out, bytes + more, closed)
                == BodyRun::Done(result, rest + more),
            BodyRun::Blocked(waiting, grown, rest) => body_run(stage, out, bytes + more, closed)
                == body_run(waiting, grown, rest + more, closed),
        },
    decreases bytes.len(), stage_rank(stage),
{
    lemma_step_is_final(stage, out, bytes, more, closed);
    lemma_step_advances(stage, out, bytes, false);
    if let BodyStep::Next(next, grown, rest) = body_step(stage, out, bytes, false) {
        body_does_not_depend_on_arrival(next, grown, rest, more, closed);
    }
}

/// A body that was read is no longer than the limit, and while the reader waits it
/// holds no more than the limit, in what it has read and in what it has not.
pub proof fn body_is_bounded(stage: BodyStage, out: Seq<u8>, bytes: Seq<u8>, closed: bool)
    requires
        stage_valid(stage, out),
    ensures
        match body_run(stage, out, bytes, closed) {
            BodyRun::Done(result, _) => result matches Ok(text) ==> encode_utf8(text).len()
                <= MAX_RPC_BODY_BYTES,
            BodyRun::Blocked(waiting, grown, rest) => {
                &&& stage_valid(waiting, grown)
                &&& rest.len() <= MAX_RPC_BODY_BYTES
            },
        },
    decreases bytes.len(), stage_rank(stage),
{
    broadcast use decode_utf8_encode_utf8;

    lemma_step_advances(stage, out, bytes, closed);
    stream::lemma_line_length(bytes, MAX_FRAMING_LINE_BYTES as nat);
    let n = stream::line_length(bytes, MAX_FRAMING_LINE_BYTES as nat);
    if n > 0 {
        assert(stream::raw_line(bytes).last() == bytes[n - 1]);
    }
    if let Ok(line) = stream::framing_line(bytes) {
        let size = text::trim(text::split(text::trim(line), ';')[0]);
        number::lemma_unsigned_natural(size, 16, usize::MAX as int);
    }
    if let BodyStep::Next(next, grown, rest) = body_step(stage, out, bytes, closed) {
        body_is_bounded(next, grown, rest, closed);
    }
}

/// A body with a stated length is the text of that many bytes, and what follows
/// them is left alone.
pub proof fn sized_body_reads_back(text: Seq<char>, rest: Seq<u8>, closed: bool)
    requires
        encode_utf8(text).len() <= MAX_RPC_BODY_BYTES,
    ensures
        body_run(
            first_stage(Some(encode_utf8(text).len() as usize), false),
            Seq::empty(),
            encode_utf8(text) + rest,
            closed,
        ) == BodyRun::Done(Ok(text), rest),
{
    let bytes = encode_utf8(text);
    encode_utf8_valid_utf8(text);
    encode_utf8_decode_utf8(text);
    assert((bytes + rest).take(bytes.len() as int) =~= bytes);
    assert((bytes + rest).skip(bytes.len() as int) =~= rest);
}

/// A body that runs to the end of the stream is the text of all its bytes.
pub proof fn unsized_body_reads_back(text: Seq<char>)
    requires
        encode_utf8(text).len() <= MAX_RPC_BODY_BYTES,
    ensures
        body_run(first_stage(None, false), Seq::empty(), encode_utf8(text), true) == BodyRun::Done(
            Ok(text),
            Seq::empty(),
        ),
{
    encode_utf8_valid_utf8(text);
    encode_utf8_decode_utf8(text);
}

/// A body with a stated length: refused when the length is over the limit, otherwise the
/// text of that many bytes as soon as they have arrived, and cut short when they never do.
pub proof fn sized_body_is_that_many_bytes(length: usize, bytes: Seq<u8>, closed: bool)
    ensures
        ({
            let run = body_run(first_stage(Some(length), false), Seq::empty(), bytes, closed);
            let kept = bytes.take(length as int);
            if length > 1048576 {
                run == BodyRun::Done(Err(FramingError::BodyTooLarge), bytes)
            } else if bytes.len() < length && closed {
                run == BodyRun::Done(Err(FramingError::UnexpectedEnd), bytes)
            } else if bytes.len() < length {
                run == BodyRun::Blocked(BodyStage::Sized(length), Seq::empty(), bytes)
            } else if valid_utf8(kept) {
                run == BodyRun::Done(Ok(decode_utf8(kept)), bytes.skip(length as int))
            } else {
                run == BodyRun::Done(Err(FramingError::BodyNotUtf8), bytes.skip(length as int))
            }
        }),
{
}

/// A body without a length is what arrives until the end, if that is not over the limit.
pub proof fn unsized_body_is_all_that_arrives(bytes: Seq<u8>, closed: bool)
    ensures
        ({
            let run = body_run(first_stage(None, false), Seq::empty(), bytes, closed);
            let kept = bytes.take(1048577);
            if bytes.len() > 1048576 {
                run == BodyRun::Done(
                    if valid_utf8(kept) {
                        Err(FramingError::BodyTooLarge)
                    } else {
                        Err(FramingError::StreamNotUtf8)
                    },
                    bytes.skip(1048577),
                )
            } else if !closed {
                run == BodyRun::Blocked(BodyStage::ToEnd, Seq::empty(), bytes)
            } else if valid_utf8(bytes) {
                run == BodyRun::Done(Ok(decode_utf8(bytes)), Seq::empty())
            } else {
                run == BodyRun::Done(Err(FramingError::StreamNotUtf8), Seq::empty())
            }
        }),
{
}

/// Whether a body is chunked decides before its length does.
pub proof fn chunked_framing_goes_first(length: Option<usize>)
    ensures
        first_stage(length, true) == BodyStage::ChunkSize,
        first_stage(None, false) == BodyStage::ToEnd,
        length matches Some(n) ==> first_stage(length, false) == BodyStage::Sized(n),
{
}

/// A chunk takes the bytes that its size says, and then a line that holds nothing but its
/// own end.
pub proof fn chunk_is_followed_by_an_empty_line(
    size: usize,
    out: Seq<u8>,
    data: Seq<u8>,
    rest: Seq<u8>,
    closed: bool,
)
    requires
        data.len() == size,
    ensures
        ({
            let run = body_run(BodyStage::ChunkData(size), out, data + rest, closed);
            if !stream::line_complete(rest, closed) {
                run == BodyRun::Blocked(BodyStage::ChunkEnd, out + data, rest)
            } else {
                match stream::framing_line(rest) {
                    Err(error) => run == BodyRun::Done(Err(error), stream::after_line(rest)),
                    Ok(line) => if line == seq!['\r', '\n'] || line == seq!['\n'] {
                        run == body_run(
                            BodyStage::ChunkSize,
                            out + data,
                            stream::after_line(rest),
                            closed,
                        )
                    } else {
                        run == BodyRun::Done(
                            Err(FramingError::MalformedChunkEnd),
                            stream::after_line(rest),
                        )
                    },
                }
            }
        }),
{
    let bytes = data + rest;
    reveal_strlit("\r\n");
    reveal_strlit("\n");
    assert("\r\n"@ =~= seq!['\r', '\n']);
    assert("\n"@ =~= seq!['\n']);
    assert(bytes.take(size as int) =~= data);
    assert(bytes.skip(size as int) =~= rest);
    assert(body_step(BodyStage::ChunkData(size), out, bytes, closed) == BodyStep::Next(
        BodyStage::ChunkEnd,
        out + data,
        rest,
    ));
    assert(body_run(BodyStage::ChunkData(size), out, bytes, closed) == body_run(
        BodyStage::ChunkEnd,
        out + data,
        rest,
        closed,
    ));
}

/// A chunk that is cut short waits for the rest of it, and fails when that never comes.
pub proof fn short_chunk_waits_or_fails(
    size: usize,
    out: Seq<u8>,
    bytes: Seq<u8>,
    closed: bool,
)
    requires
        bytes.len() < size,
    ensures
        body_run(BodyStage::ChunkData(size), out, bytes, closed) == (if closed {
            BodyRun::Done(Err(FramingError::UnexpectedEnd), bytes)
        } else {
            BodyRun::Blocked(BodyStage::ChunkData(size), out, bytes)
        }),
{
}

/// The line in front of a chunk decides what comes: another chunk, the trailers after a
/// chunk of the size zero, or a failure when it gives no size or one that takes the body
/// over the limit.
pub proof fn size_line_decides_what_comes(out: Seq<u8>, bytes: Seq<u8>, closed: bool)
    requires
        stream::line_complete(bytes, closed),
    ensures
        ({
            let run = body_run(BodyStage::ChunkSize, out, bytes, closed);
            let rest = stream::after_line(bytes);
            match stream::framing_line(bytes) {
                Err(error) => run == BodyRun::Done(Err(error), rest),
                Ok(line) => match chunk_size(line) {
                    None => run == BodyRun::Done(Err(FramingError::MalformedChunkSize), rest),
                    Some(size) => if size == 0 {
                        run == body_run(BodyStage::Trailers(0), out, rest, closed)
                    } else if out.len() + size > 1048576 {
                        run == BodyRun::Done(Err(FramingError::BodyTooLarge), rest)
                    } else {
                        run == body_run(BodyStage::ChunkData(size as usize), out, rest, closed)
                    },
                },
            }
        }),
{
}

/// The trailers end with a blank line or with the bytes, and give the text of the chunks;
/// 64 of them may come, and no more.
pub proof fn blank_line_ends_the_trailers(count: usize, out: Seq<u8>, bytes: Seq<u8>, closed: bool)
    requires
        stream::line_complete(bytes, closed),
        count <= 64,
    ensures
        ({
            let run = body_run(BodyStage::Trailers(count), out, bytes, closed);
            let rest = stream::after_line(bytes);
            match stream::framing_line(bytes) {
                Err(error) => run == BodyRun::Done(Err(error), rest),
                Ok(line) => if text::blank(line) {
                    run == BodyRun::Done(
                        if valid_utf8(out) {
                            Ok(decode_utf8(out))
                        } else {
                            Err(FramingError::BodyNotUtf8)
                        },
                        rest,
                    )
                } else if count == 64 {
                    run == BodyRun::Done(Err(FramingError::TooManyTrailers), rest)
                } else {
                    run == body_run(BodyStage::Trailers((count + 1) as usize), out, rest, closed)
                },
            }
        }),
{
    if let Ok(line) = stream::framing_line(bytes) {
        text::trimmed_text_is_empty_only_where_it_is_blank(line);
    }
}

/// A reader waits for the end of a line that frames a chunk.
pub proof fn framing_of_chunks_waits_for_a_line(
    stage: BodyStage,
    out: Seq<u8>,
    bytes: Seq<u8>,
    closed: bool,
)
    requires
        stage is ChunkSize || stage is ChunkEnd || stage is Trailers,
        !stream::line_complete(bytes, closed),
    ensures
        body_run(stage, out, bytes, closed) == BodyRun::Blocked(stage, out, bytes),
{
}

/// The size of a chunk is the number in the base sixteen that stands in front of the first
/// semicolon, white space around it aside; without such a number there is none.
pub proof fn size_stands_before_the_semicolon(
    before: Seq<char>,
    core: Seq<char>,
    after: Seq<char>,
    extension: Seq<char>,
)
    requires
        text::blank(before),
        text::blank(after),
        text::lacks(core, ';'),
        core.len() > 0 ==> !text::white_space(core[0]) && !text::white_space(core.last()),
        extension.len() > 0 ==> extension[0] == ';',
    ensures
        chunk_size(before + core + after + extension) == number::unsigned_number(
            core,
            16,
            usize::MAX as int,
        ),
{
    let line = before + core + after + extension;
    let none: Seq<char> = seq![];
    lemma_semicolon_is_solid();
    text::trimming_removes_the_white_space_around(none, core, after);
    assert(none + core + after =~= core + after);
    text::trimming_removes_the_white_space_around(none, core, none);
    assert(none + core + none =~= core);
    let (kept, tail) = text::text_ends_in_white_space(extension);
    if extension.len() == 0 {
        assert(line =~= before + core + after);
        text::trimming_removes_the_white_space_around(before, core, after);
        text::pieces_end_at_separators(core, ';', none);
        assert(text::split(core, ';')[0] == core);
    } else {
        assert(kept.len() > 0) by {
            if kept.len() == 0 {
                assert(extension[0] == tail[0]);
                assert(text::white_space(tail[0]));
            }
        }
        assert(kept[0] == extension[0]);
        let others = kept.drop_first();
        if core.len() > 0 {
            let whole = core + after + kept;
            assert(line =~= before + whole + tail);
            assert(whole[0] == core[0]);
            assert(whole.last() == kept.last());
            text::trimming_removes_the_white_space_around(before, whole, tail);
            assert(whole =~= (core + after) + seq![';'] + others);
            lemma_lacks_semicolon(core, after);
            text::pieces_end_at_separators(core + after, ';', others);
            assert(text::split(whole, ';')[0] == core + after);
        } else {
            let lead = before + after;
            assert(line =~= lead + kept + tail);
            assert forall|i: int| 0 <= i < lead.len() implies text::white_space(
                #[trigger] lead[i],
            ) by {
                if i < before.len() {
                    assert(lead[i] == before[i]);
                } else {
                    assert(lead[i] == after[i - before.len()]);
                }
            }
            text::trimming_removes_the_white_space_around(lead, kept, tail);
            assert(kept =~= none + seq![';'] + others);
            text::pieces_end_at_separators(none, ';', others);
            assert(text::split(kept, ';')[0] =~= core);
        }
    }
}

proof fn lemma_lacks_semicolon(core: Seq<char>, after: Seq<char>)
    requires
        text::lacks(core, ';'),
        text::blank(after),
    ensures
        text::lacks(core + after, ';'),
{
    lemma_semicolon_is_solid();
    let piece = core + after;
    assert forall|i: int| 0 <= i < piece.len() implies #[trigger] piece[i] != ';' by {
        if i >= core.len() {
            assert(piece[i] == after[i - core.len()]);
            assert(text::white_space(after[i - core.len()]));
        } else {
            assert(piece[i] == core[i]);
        }
    }
}

proof fn lemma_semicolon_is_solid()
    ensures
        !text::white_space(';'),
{
}

/// A result stands for the text that it holds, or for the fault.
pub proof fn result_is_the_text_or_the_fault(
    r: Result<String, FramingError>,
    result: Result<Seq<char>, FramingError>,
)
    requires
        same_result(r, result),
    ensures
        match r {
            Ok(text) => result == Ok::<Seq<char>, FramingError>(text@),
            Err(error) => result == Err::<Seq<char>, FramingError>(error),
        },
{
}

} // verus!
