//! Chunked bodies as a peer writes them, and that reading them gives them back.

use vstd::prelude::*;
use vstd::utf8::*;

use crate::body::{self, BodyRun, BodyStage, BodyStep, MAX_RPC_BODY_BYTES, MAX_TRAILER_LINES};
use crate::number;
use crate::stream::{self, FramingError, MAX_FRAMING_LINE_BYTES};
use crate::text;

verus! {

/// A chunk: its bytes, and the extension that stands behind its size.
pub struct Chunk {
    pub data: Seq<u8>,
    pub extension: Option<Seq<char>>,
}

/// Whether `line`, with its line feed, can stand in the framing of a reply.
pub open spec fn writable_line(line: Seq<char>) -> bool {
    &&& forall|i: int| 0 <= i < line.len() ==> line[i] != '\n'
    &&& encode_utf8(line).len() < MAX_FRAMING_LINE_BYTES
}

/// The line in front of a chunk, without its line feed.
pub open spec fn size_line(chunk: Chunk) -> Seq<char> {
    number::digits(chunk.data.len(), 16) + (match chunk.extension {
        Some(extension) => seq![';'] + extension,
        None => seq![],
    }) + seq!['\r']
}

/// `line` and its line feed, as bytes.
pub open spec fn line_bytes(line: Seq<char>) -> Seq<u8> {
    encode_utf8(line.push('\n'))
}

/// A chunk as it is sent.
pub open spec fn chunk_bytes(chunk: Chunk) -> Seq<u8> {
    line_bytes(size_line(chunk)) + chunk.data + line_bytes(seq!['\r'])
}

/// Whether `chunk` can be sent.
pub open spec fn writable_chunk(chunk: Chunk) -> bool {
    chunk.data.len() > 0 && writable_line(size_line(chunk))
}

/// The bytes of all chunks, one after the other.
pub open spec fn joined(chunks: Seq<Chunk>) -> Seq<u8>
    decreases chunks.len(),
{
    if chunks.len() == 0 {
        seq![]
    } else {
        chunks[0].data + joined(chunks.drop_first())
    }
}

/// Trailer lines as they are sent, with the empty line that ends them.
pub open spec fn trailer_bytes(trailers: Seq<Seq<char>>) -> Seq<u8>
    decreases trailers.len(),
{
    if trailers.len() == 0 {
        line_bytes(seq!['\r'])
    } else {
        line_bytes(trailers[0]) + trailer_bytes(trailers.drop_first())
    }
}

/// A chunked body as it is sent: the chunks, one of the size zero, the trailers.
pub open spec fn chunked_bytes(chunks: Seq<Chunk>, trailers: Seq<Seq<char>>) -> Seq<u8>
    decreases chunks.len(),
{
    if chunks.len() == 0 {
        line_bytes(seq!['0', '\r']) + trailer_bytes(trailers)
    } else {
        chunk_bytes(chunks[0]) + chunked_bytes(chunks.drop_first(), trailers)
    }
}

// ---------------------------------------------------------------------------
// Lines
// ---------------------------------------------------------------------------

proof fn lemma_encode_concat(a: Seq<char>, b: Seq<char>)
    ensures
        encode_utf8(a + b) == encode_utf8(a) + encode_utf8(b),
    decreases a.len(),
{
    if a.len() == 0 {
        assert(a + b =~= b);
        assert(encode_utf8(a) + encode_utf8(b) =~= encode_utf8(b));
    } else {
        assert((a + b).drop_first() =~= a.drop_first() + b);
        lemma_encode_concat(a.drop_first(), b);
        assert(encode_utf8(a + b) =~= encode_utf8(a) + encode_utf8(b));
    }
}

proof fn lemma_line_feed_bytes()
    ensures
        encode_utf8(seq!['\n']) == seq![10u8],
{
    let s = seq!['\n'];
    assert(is_ascii_chars(s));
    is_ascii_chars_encode_utf8(s);
    assert(encode_utf8(s)[0] == s[0] as u8);
    assert(encode_utf8(s) =~= seq![10u8]);
}

proof fn lemma_char_no_line_feed(c: char)
    requires
        c != '\n',
    ensures
        !encode_scalar(c as u32).contains(10u8),
{
    let v = c as u32;
    assert(v != 10);
    assert(has_width_1_encoding(v) && v != 10 ==> (v & 0x7F) as u8 != 10) by (bit_vector);
    assert(0xC0 | ((v >> 6) & 0x1F) as u8 != 10) by (bit_vector);
    assert(0xE0 | ((v >> 12) & 0x0F) as u8 != 10) by (bit_vector);
    assert(0xF0 | ((v >> 18) & 0x7) as u8 != 10) by (bit_vector);
    assert(0x80 | (v & 0x3F) as u8 != 10) by (bit_vector);
    assert(0x80 | ((v >> 6) & 0x3F) as u8 != 10) by (bit_vector);
    assert(0x80 | ((v >> 12) & 0x3F) as u8 != 10) by (bit_vector);
}

/// Only a line feed is written with the byte of a line feed.
proof fn lemma_no_line_feed(line: Seq<char>)
    requires
        forall|i: int| 0 <= i < line.len() ==> line[i] != '\n',
    ensures
        forall|i: int| 0 <= i < encode_utf8(line).len() ==> encode_utf8(line)[i] != 10,
    decreases line.len(),
{
    if line.len() > 0 {
        lemma_no_line_feed(line.drop_first());
        lemma_char_no_line_feed(line[0]);
        let head = encode_scalar(line[0] as u32);
        let bytes = encode_utf8(line);
        assert forall|i: int| 0 <= i < bytes.len() implies bytes[i] != 10 by {
            if i < head.len() {
                assert(bytes[i] == head[i]);
            } else {
                assert(bytes[i] == encode_utf8(line.drop_first())[i - head.len()]);
            }
        }
    }
}

/// A line that was sent is read back whole.
pub proof fn sent_line_reads_back(line: Seq<char>, rest: Seq<u8>, closed: bool)
    requires
        writable_line(line),
    ensures
        stream::line_complete(line_bytes(line) + rest, closed),
        stream::framing_line(line_bytes(line) + rest) == Ok::<Seq<char>, FramingError>(
            line.push('\n'),
        ),
        stream::after_line(line_bytes(line) + rest) == rest,
{
    let body = encode_utf8(line);
    let sent = line_bytes(line);
    let bytes = sent + rest;
    assert(line.push('\n') =~= line + seq!['\n']);
    lemma_encode_concat(line, seq!['\n']);
    lemma_line_feed_bytes();
    lemma_no_line_feed(line);
    assert(sent =~= body.push(10u8));
    assert forall|j: int| 0 <= j < sent.len() - 1 implies bytes[j] != 10 by {
        assert(bytes[j] == body[j]);
    }
    assert(bytes[sent.len() - 1] == 10);
    stream::lemma_line_length_is(bytes, MAX_FRAMING_LINE_BYTES as nat, sent.len());
    assert(stream::raw_line(bytes) =~= sent);
    assert(stream::after_line(bytes) =~= rest);
    encode_utf8_valid_utf8(line.push('\n'));
    encode_utf8_decode_utf8(line.push('\n'));
}

// ---------------------------------------------------------------------------
// Sizes
// ---------------------------------------------------------------------------

/// `trim_end` keeps everything up to the last character that is no white space.
pub proof fn lemma_trim_end_is(s: Seq<char>, n: int)
    requires
        0 <= n <= s.len(),
        n > 0 ==> !text::white_space(s[n - 1]),
        forall|i: int| n <= i < s.len() ==> text::white_space(#[trigger] s[i]),
    ensures
        text::trim_end(s) == s.take(n),
    decreases s.len(),
{
    if n == s.len() {
        assert(s.take(n) =~= s);
    } else {
        assert(text::white_space(s[s.len() - 1]));
        lemma_trim_end_is(s.drop_last(), n);
        assert(s.drop_last().take(n) =~= s.take(n));
    }
}

/// `trim_end` keeps a start of the text, and at least up to any character that is
/// no white space.
proof fn lemma_trim_end_keeps(s: Seq<char>, k: int)
    requires
        0 <= k < s.len(),
        !text::white_space(s[k]),
    ensures
        k < text::trim_end(s).len() <= s.len(),
        text::trim_end(s) == s.take(text::trim_end(s).len() as int),
    decreases s.len(),
{
    if text::white_space(s.last()) {
        assert(k < s.len() - 1);
        lemma_trim_end_keeps(s.drop_last(), k);
        let n = text::trim_end(s).len() as int;
        assert(s.drop_last().take(n) =~= s.take(n));
    } else {
        assert(s.take(s.len() as int) =~= s);
    }
}

/// A digit is neither white space nor a separator.
pub proof fn lemma_digit_is_visible(c: char)
    requires
        number::digit_of(c) < 16,
    ensures
        !text::white_space(c),
        c != ';',
        c as u32 <= 'f' as u32,
{
}

/// The line in front of a chunk gives the size of the chunk.
proof fn lemma_size_line(chunk: Chunk)
    requires
        chunk.data.len() <= usize::MAX,
    ensures
        body::chunk_size(size_line(chunk).push('\n')) == Some(chunk.data.len() as int),
{
    let number = number::digits(chunk.data.len(), 16);
    number::digits_write_their_number(chunk.data.len(), 16);
    number::digits_read_back(chunk.data.len(), 16, usize::MAX as int);
    assert forall|i: int| 0 <= i < number.len() implies !text::white_space(#[trigger] number[i])
        && number[i] != ';' by {
        lemma_digit_is_visible(number[i]);
    }
    let line = size_line(chunk).push('\n');
    let n = number.len() as int;
    assert forall|i: int| 0 <= i < n implies #[trigger] line[i] == number[i] by {}
    assert(!text::white_space(line[0]) && !text::white_space(line[n - 1]));
    assert(text::trim_start(line) == line);
    let kept = text::trim(line);
    match chunk.extension {
        None => {
            assert(line =~= number + seq!['\r', '\n']);
            lemma_trim_end_is(line, n);
            assert(kept =~= number);
            text::lemma_char_index(kept, ';', n);
        },
        Some(extension) => {
            assert(line[n] == ';');
            lemma_trim_end_keeps(line, n);
            assert(kept[n] == ';');
            assert forall|j: int| 0 <= j < n implies kept[j] != ';' by {
                assert(kept[j] == number[j]);
            }
            text::lemma_char_index(kept, ';', n);
            assert(kept.take(n) =~= number);
        },
    }
    assert(text::split(kept, ';')[0] =~= number);
    assert(text::trim_start(number) == number);
    assert(text::trim_end(number) == number);
}

// ---------------------------------------------------------------------------
// Bodies
// ---------------------------------------------------------------------------

/// Trailer lines are read and dropped.
proof fn lemma_trailers(
    out: Seq<u8>,
    count: usize,
    trailers: Seq<Seq<char>>,
    rest: Seq<u8>,
    closed: bool,
)
    requires
        count + trailers.len() <= MAX_TRAILER_LINES,
        forall|i: int|
            0 <= i < trailers.len() ==> writable_line(#[trigger] trailers[i]) && text::trim(
                trailers[i].push('\n'),
            ).len() > 0,
    ensures
        body::body_run(BodyStage::Trailers(count), out, trailer_bytes(trailers) + rest, closed)
            == BodyRun::Done(body::body_text(out), rest),
    decreases trailers.len(),
{
    let bytes = trailer_bytes(trailers) + rest;
    if trailers.len() == 0 {
        lemma_empty_line();
        sent_line_reads_back(seq!['\r'], rest, closed);
    } else {
        let first = trailers[0];
        let others = trailers.drop_first();
        let tail = trailer_bytes(others) + rest;
        assert(bytes =~= line_bytes(first) + tail);
        sent_line_reads_back(first, tail, closed);
        assert forall|i: int| 0 <= i < others.len() implies writable_line(#[trigger] others[i])
            && text::trim(others[i].push('\n')).len() > 0 by {
            assert(others[i] == trailers[i + 1]);
        }
        lemma_trailers(out, (count + 1) as usize, others, rest, closed);
    }
}

/// The line that holds only its own end.
pub proof fn lemma_empty_line()
    ensures
        writable_line(seq!['\r']),
        text::trim(seq!['\r'].push('\n')).len() == 0,
        seq!['\r'].push('\n') == "\r\n"@,
{
    let line = seq!['\r'];
    assert(is_ascii_chars(line));
    is_ascii_chars_encode_utf8(line);
    reveal_strlit("\r\n");
    assert(line.push('\n') =~= "\r\n"@);
    reveal_with_fuel(text::trim_start, 3);
    assert(line.push('\n').drop_first() =~= seq!['\n']);
    assert(seq!['\n'].drop_first() =~= seq![]);
}

/// The line that announces the last chunk.
proof fn lemma_last_size_line()
    ensures
        writable_line(seq!['0', '\r']),
        body::chunk_size(seq!['0', '\r'].push('\n')) == Some(0int),
{
    let chunk = Chunk { data: seq![], extension: None };
    lemma_size_line(chunk);
    assert(size_line(chunk) =~= seq!['0', '\r']);
    let line = seq!['0', '\r'];
    assert(is_ascii_chars(line));
    is_ascii_chars_encode_utf8(line);
}

proof fn lemma_chunks(
    out: Seq<u8>,
    chunks: Seq<Chunk>,
    trailers: Seq<Seq<char>>,
    rest: Seq<u8>,
    closed: bool,
)
    requires
        out.len() + joined(chunks).len() <= MAX_RPC_BODY_BYTES,
        forall|i: int| 0 <= i < chunks.len() ==> writable_chunk(#[trigger] chunks[i]),
        trailers.len() <= MAX_TRAILER_LINES,
        forall|i: int|
            0 <= i < trailers.len() ==> writable_line(#[trigger] trailers[i]) && text::trim(
                trailers[i].push('\n'),
            ).len() > 0,
    ensures
        body::body_run(BodyStage::ChunkSize, out, chunked_bytes(chunks, trailers) + rest, closed)
            == BodyRun::Done(body::body_text(out + joined(chunks)), rest),
    decreases chunks.len(),
{
    let bytes = chunked_bytes(chunks, trailers) + rest;
    if chunks.len() == 0 {
        let tail = trailer_bytes(trailers) + rest;
        assert(bytes =~= line_bytes(seq!['0', '\r']) + tail);
        lemma_last_size_line();
        sent_line_reads_back(seq!['0', '\r'], tail, closed);
        lemma_trailers(out, 0, trailers, rest, closed);
        assert(out + joined(chunks) =~= out);
    } else {
        let chunk = chunks[0];
        let others = chunks.drop_first();
        let size = chunk.data.len();
        let next = chunked_bytes(others, trailers) + rest;
        let after_data = line_bytes(seq!['\r']) + next;
        let after_size = chunk.data + after_data;
        assert(bytes =~= line_bytes(size_line(chunk)) + after_size);
        assert(writable_chunk(chunks[0]));
        assert(out.len() + size <= MAX_RPC_BODY_BYTES);

        sent_line_reads_back(size_line(chunk), after_size, closed);
        lemma_size_line(chunk);
        assert(body::body_step(BodyStage::ChunkSize, out, bytes, closed) == BodyStep::Next(
            BodyStage::ChunkData(size as usize),
            out,
            after_size,
        ));

        let grown = out + chunk.data;
        assert(after_size.take(size as int) =~= chunk.data);
        assert(after_size.skip(size as int) =~= after_data);
        assert(body::body_step(BodyStage::ChunkData(size as usize), out, after_size, closed)
            == BodyStep::Next(BodyStage::ChunkEnd, grown, after_data));

        lemma_empty_line();
        sent_line_reads_back(seq!['\r'], next, closed);
        assert(body::body_step(BodyStage::ChunkEnd, grown, after_data, closed) == BodyStep::Next(
            BodyStage::ChunkSize,
            grown,
            next,
        ));

        assert forall|i: int| 0 <= i < others.len() implies writable_chunk(#[trigger] others[i]) by {
            assert(others[i] == chunks[i + 1]);
        }
        lemma_chunks(grown, others, trailers, rest, closed);
        assert(grown + joined(others) =~= out + joined(chunks));
        assert(body::body_run(BodyStage::ChunkEnd, grown, after_data, closed) == body::body_run(
            BodyStage::ChunkSize,
            grown,
            next,
            closed,
        ));
        let data = BodyStage::ChunkData(size as usize);
        assert(body::body_run(data, out, after_size, closed) == body::body_run(
            BodyStage::ChunkEnd,
            grown,
            after_data,
            closed,
        ));
    }
}

/// A text that was sent in chunks is read back whole, however it was divided,
/// whatever extensions the chunks carry and whatever trailers follow; what comes
/// after the body is left alone.
pub proof fn chunked_body_reads_back(
    text: Seq<char>,
    chunks: Seq<Chunk>,
    trailers: Seq<Seq<char>>,
    rest: Seq<u8>,
    closed: bool,
    content_length: Option<usize>,
)
    requires
        joined(chunks) == encode_utf8(text),
        encode_utf8(text).len() <= MAX_RPC_BODY_BYTES,
        forall|i: int| 0 <= i < chunks.len() ==> writable_chunk(#[trigger] chunks[i]),
        trailers.len() <= MAX_TRAILER_LINES,
        forall|i: int|
            0 <= i < trailers.len() ==> writable_line(#[trigger] trailers[i]) && text::trim(
                trailers[i].push('\n'),
            ).len() > 0,
    ensures
        body::body_run(
            body::first_stage(content_length, true),
            Seq::empty(),
            chunked_bytes(chunks, trailers) + rest,
            closed,
        ) == BodyRun::Done(Ok(text), rest),
{
    lemma_chunks(Seq::empty(), chunks, trailers, rest, closed);
    assert(Seq::<u8>::empty() + joined(chunks) =~= encode_utf8(text));
    encode_utf8_valid_utf8(text);
    encode_utf8_decode_utf8(text);
}

} // verus!
