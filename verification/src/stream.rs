//! Bytes as they arrive from a peer, and the lines that frame a reply.

use vstd::prelude::*;
use vstd::utf8::*;

verus! {

/// Maximum length of a framing line, its line feed included.
pub const MAX_FRAMING_LINE_BYTES: usize = 8192;

/// What a reader made of the bytes that have arrived so far.
#[derive(Debug)]
pub enum Progress<T> {
    /// The bytes were enough.
    Ready(T),
    /// More bytes are needed, or the news that none will come.
    Pending,
}

/// A fault in the framing of a reply.
#[derive(Debug, Clone, Copy, PartialEq, Eq, Structural)]
pub enum FramingError {
    /// A framing line, or a body read to its end, is not UTF-8.
    StreamNotUtf8,
    /// A framing line is longer than the limit.
    LineTooLong,
    /// The status line is not one of HTTP.
    MalformedStatusLine,
    /// The reply has more headers than the limit.
    TooManyHeaders,
    /// A chunk does not start with its size.
    MalformedChunkSize,
    /// A chunk is not followed by the end of its line.
    MalformedChunkEnd,
    /// The reply has more trailer lines than the limit.
    TooManyTrailers,
    /// The body is longer than the limit.
    BodyTooLarge,
    /// The bytes end inside the body.
    UnexpectedEnd,
    /// The body is not UTF-8.
    BodyNotUtf8,
}

impl FramingError {
    /// The message that tells a user of the fault.
    pub open spec fn message_text(self) -> Seq<char> {
        match self {
            FramingError::StreamNotUtf8 => "stream did not contain valid UTF-8"@,
            FramingError::LineTooLong => "agy response framing line exceeds 8192 bytes"@,
            FramingError::MalformedStatusLine => "malformed HTTP status line"@,
            FramingError::TooManyHeaders => "agy response sent more than 128 headers"@,
            FramingError::MalformedChunkSize => "malformed chunk size"@,
            FramingError::MalformedChunkEnd =>
                "malformed chunked framing: expected CRLF after chunk body"@,
            FramingError::TooManyTrailers => "agy response sent more than 64 trailer lines"@,
            FramingError::BodyTooLarge => "agy response exceeds 1048576 bytes"@,
            FramingError::UnexpectedEnd => "failed to fill whole buffer"@,
            FramingError::BodyNotUtf8 =>
                "agy response body was not valid UTF-8 (expected Connect JSON)"@,
        }
    }

    /// The message that tells a user of the fault.
    pub fn message(&self) -> (r: String)
        ensures
            r@ == self.message_text(),
    {
        let text: &str = match *self {
            FramingError::StreamNotUtf8 => "stream did not contain valid UTF-8",
            FramingError::LineTooLong => "agy response framing line exceeds 8192 bytes",
            FramingError::MalformedStatusLine => "malformed HTTP status line",
            FramingError::TooManyHeaders => "agy response sent more than 128 headers",
            FramingError::MalformedChunkSize => "malformed chunk size",
            FramingError::MalformedChunkEnd =>
                "malformed chunked framing: expected CRLF after chunk body",
            FramingError::TooManyTrailers => "agy response sent more than 64 trailer lines",
            FramingError::BodyTooLarge => "agy response exceeds 1048576 bytes",
            FramingError::UnexpectedEnd => "failed to fill whole buffer",
            FramingError::BodyNotUtf8 =>
                "agy response body was not valid UTF-8 (expected Connect JSON)",
        };
        text.to_owned()
    }
}

/// The bytes that have arrived from a peer and were not read yet.
#[derive(Debug)]
pub struct ByteStream {
    data: Vec<u8>,
    start: usize,
    closed: bool,
}

impl ByteStream {
    #[verifier::type_invariant]
    spec fn start_in_data(self) -> bool {
        self.start <= self.data@.len()
    }

    /// The bytes that have arrived and were not read yet.
    pub closed spec fn pending(&self) -> Seq<u8> {
        self.data@.skip(self.start as int)
    }

    /// Whether the peer has sent its last byte.
    pub closed spec fn is_closed(&self) -> bool {
        self.closed
    }

    /// A stream on which nothing has arrived yet.
    pub fn new() -> (r: Self)
        ensures
            r.pending() == Seq::<u8>::empty(),
            !r.is_closed(),
    {
        let r = ByteStream { data: Vec::new(), start: 0, closed: false };
        assert(r.pending() =~= Seq::<u8>::empty());
        r
    }

    /// A stream on which `bytes` have arrived and nothing more will.
    pub fn complete(bytes: Vec<u8>) -> (r: Self)
        ensures
            r.pending() == bytes@,
            r.is_closed(),
    {
        let r = ByteStream { data: bytes, start: 0, closed: true };
        assert(r.pending() =~= bytes@);
        r
    }

    /// Adds bytes that have arrived.
    pub fn feed(&mut self, bytes: &[u8])
        ensures
            final(self).pending() == old(self).pending() + bytes@,
            final(self).is_closed() == old(self).is_closed(),
    {
        proof {
            use_type_invariant(&*self);
        }
        let mut data: Vec<u8> = Vec::new();
        let closed: bool = self.closed;
        if self.start == 0 {
            assert(self.data@ =~= self.pending());
            std::mem::swap(&mut data, &mut self.data);
        } else {
            let mut i: usize = self.start;
            while i < self.data.len()
                invariant
                    self.start <= i <= self.data@.len(),
                    data@ =~= self.data@.subrange(self.start as int, i as int),
                decreases self.data@.len() - i,
            {
                data.push(self.data[i]);
                i = i + 1;
            }
            assert(data@ =~= self.pending());
        }
        let mut j: usize = 0;
        let ghost before = data@;
        while j < bytes.len()
            invariant
                j <= bytes@.len(),
                data@ =~= before + bytes@.take(j as int),
            decreases bytes@.len() - j,
        {
            data.push(bytes[j]);
            j = j + 1;
        }
        assert(bytes@.take(bytes@.len() as int) =~= bytes@);
        *self = ByteStream { data, start: 0, closed };
        assert(self.pending() =~= data@);
    }

    /// Records that the peer has sent its last byte.
    pub fn close(&mut self)
        ensures
            final(self).pending() == old(self).pending(),
            final(self).is_closed(),
    {
        proof {
            use_type_invariant(&*self);
        }
        self.closed = true;
    }

    /// Whether the peer has sent its last byte.
    pub fn closed(&self) -> (r: bool)
        ensures
            r == self.is_closed(),
    {
        self.closed
    }

    /// The number of bytes that have arrived and were not read yet.
    pub fn available(&self) -> (r: usize)
        ensures
            r == self.pending().len(),
    {
        proof {
            use_type_invariant(self);
        }
        self.data.len() - self.start
    }

    /// The unread byte at the place `i`.
    pub(crate) fn peek(&self, i: usize) -> (r: u8)
        requires
            i < self.pending().len(),
        ensures
            r == self.pending()[i as int],
    {
        proof {
            use_type_invariant(self);
        }
        let len: usize = self.data.len();
        assert(self.start + i < len);
        self.data[self.start + i]
    }

    /// Reads the next `n` bytes.
    pub(crate) fn take(&mut self, n: usize) -> (r: Vec<u8>)
        requires
            n <= old(self).pending().len(),
        ensures
            r@ == old(self).pending().take(n as int),
            final(self).pending() == old(self).pending().skip(n as int),
            final(self).is_closed() == old(self).is_closed(),
    {
        proof {
            use_type_invariant(&*self);
        }
        let ghost before = self.pending();
        let mut r: Vec<u8> = Vec::new();
        let mut i: usize = 0;
        while i < n
            invariant
                i <= n <= self.pending().len(),
                r@ =~= self.pending().take(i as int),
            decreases n - i,
        {
            r.push(self.peek(i));
            i = i + 1;
        }
        let len: usize = self.data.len();
        assert(self.start + n <= len);
        let start: usize = self.start + n;
        self.start = start;
        assert(self.pending() =~= before.skip(n as int));
        r
    }
}

// ---------------------------------------------------------------------------
// Framing lines
// ---------------------------------------------------------------------------

/// The number of bytes of `bytes` up to its first line feed, that one included,
/// but no more than `limit` and no more than there are.
pub open spec fn line_length(bytes: Seq<u8>, limit: nat) -> nat
    decreases limit,
{
    if limit == 0 || bytes.len() == 0 {
        0
    } else if bytes[0] == 10 {
        1
    } else {
        1 + line_length(bytes.drop_first(), (limit - 1) as nat)
    }
}

/// The bytes of the framing line at the start of `bytes`.
pub open spec fn raw_line(bytes: Seq<u8>) -> Seq<u8> {
    bytes.take(line_length(bytes, MAX_FRAMING_LINE_BYTES as nat) as int)
}

/// What follows the framing line at the start of `bytes`.
pub open spec fn after_line(bytes: Seq<u8>) -> Seq<u8> {
    bytes.skip(line_length(bytes, MAX_FRAMING_LINE_BYTES as nat) as int)
}

/// Whether the framing line at the start of `bytes` cannot grow any more.
pub open spec fn line_complete(bytes: Seq<u8>, closed: bool) -> bool {
    let raw = raw_line(bytes);
    ||| closed
    ||| raw.len() == MAX_FRAMING_LINE_BYTES
    ||| raw.len() > 0 && raw.last() == 10
}

/// The text of the framing line at the start of `bytes`.
pub open spec fn framing_line(bytes: Seq<u8>) -> Result<Seq<char>, FramingError> {
    let raw = raw_line(bytes);
    if !valid_utf8(raw) {
        Err(FramingError::StreamNotUtf8)
    } else if raw.len() == MAX_FRAMING_LINE_BYTES && raw.last() != 10 {
        Err(FramingError::LineTooLong)
    } else {
        Ok(decode_utf8(raw))
    }
}

/// Where a framing line ends: at a line feed, at the limit, or where the bytes end.
pub proof fn lemma_line_length(bytes: Seq<u8>, limit: nat)
    ensures
        line_length(bytes, limit) <= bytes.len(),
        line_length(bytes, limit) <= limit,
        forall|j: int| 0 <= j < line_length(bytes, limit) - 1 ==> bytes[j] != 10,
        line_length(bytes, limit) < limit && line_length(bytes, limit) < bytes.len() ==> {
            &&& line_length(bytes, limit) > 0
            &&& bytes[line_length(bytes, limit) - 1] == 10
        },
        limit > 0 && bytes.len() > 0 ==> line_length(bytes, limit) > 0,
    decreases limit,
{
    if limit > 0 && bytes.len() > 0 && bytes[0] != 10 {
        let rest = bytes.drop_first();
        lemma_line_length(rest, (limit - 1) as nat);
        let n = line_length(bytes, limit);
        assert forall|j: int| 0 <= j < n - 1 implies bytes[j] != 10 by {
            if j > 0 {
                assert(rest[j - 1] == bytes[j]);
            }
        }
        if n < limit && n < bytes.len() {
            assert(rest[n - 2] == bytes[n - 1]);
        }
    }
}

/// The length that `line_length` names, told by the bytes before it.
pub proof fn lemma_line_length_is(bytes: Seq<u8>, limit: nat, n: nat)
    requires
        n <= bytes.len(),
        n <= limit,
        forall|j: int| 0 <= j < n - 1 ==> bytes[j] != 10,
        (n > 0 && bytes[n - 1] == 10) || n == limit || n == bytes.len(),
    ensures
        line_length(bytes, limit) == n,
    decreases limit,
{
    if n > 1 {
        let rest = bytes.drop_first();
        assert forall|j: int| 0 <= j < n - 2 implies rest[j] != 10 by {
            assert(rest[j] == bytes[j + 1]);
        }
        assert(bytes[0] != 10);
        assert(rest[n - 2] == bytes[n - 1]);
        lemma_line_length_is(rest, (limit - 1) as nat, (n - 1) as nat);
    } else if n == 1 && bytes[0] != 10 {
        let rest = bytes.drop_first();
        lemma_line_length_is(rest, (limit - 1) as nat, 0);
    }
}

/// A framing line that is complete stays the same whatever bytes arrive after it.
pub proof fn complete_line_is_final(bytes: Seq<u8>, more: Seq<u8>)
    requires
        line_complete(bytes, false),
    ensures
        raw_line(bytes + more) == raw_line(bytes),
        framing_line(bytes + more) == framing_line(bytes),
        after_line(bytes + more) == after_line(bytes) + more,
        line_complete(bytes + more, false),
{
    let limit = MAX_FRAMING_LINE_BYTES as nat;
    lemma_line_length(bytes, limit);
    let n = line_length(bytes, limit);
    let whole = bytes + more;
    assert forall|j: int| 0 <= j < n - 1 implies whole[j] != 10 by {
        assert(whole[j] == bytes[j]);
    }
    if n > 0 {
        assert(raw_line(bytes).last() == bytes[n - 1]);
        assert(whole[n - 1] == bytes[n - 1]);
    }
    lemma_line_length_is(whole, limit, n);
    assert(whole.take(n as int) =~= bytes.take(n as int));
    assert(whole.skip(n as int) =~= bytes.skip(n as int) + more);
}

/// A framing line that was read is no longer than the limit.
pub proof fn framing_line_is_bounded(bytes: Seq<u8>)
    ensures
        framing_line(bytes) matches Ok(line) ==> encode_utf8(line).len()
            <= MAX_FRAMING_LINE_BYTES,
{
    lemma_line_length(bytes, MAX_FRAMING_LINE_BYTES as nat);
    if valid_utf8(raw_line(bytes)) {
        decode_utf8_encode_utf8(raw_line(bytes));
    }
}

/// `String::from_utf8` gives the text that the bytes encode in UTF-8, and an error
/// when they are not UTF-8.
#[verifier::external_body]
pub(crate) fn text_from_utf8(bytes: Vec<u8>) -> (r: Option<String>)
    ensures
        r is Some <==> valid_utf8(bytes@),
        r matches Some(text) ==> text@ == decode_utf8(bytes@),
{
    String::from_utf8(bytes).ok()
}

/// Reads one framing line, rejecting one that is too long.
///
/// Nothing is read while the line may still grow.
pub fn read_framing_line(reader: &mut ByteStream) -> (r: Progress<Result<String, FramingError>>)
    ensures
        final(reader).is_closed() == old(reader).is_closed(),
        match r {
            Progress::Pending => !line_complete(old(reader).pending(), old(reader).is_closed())
                && final(reader).pending() == old(reader).pending(),
            Progress::Ready(line) => {
                &&& line_complete(old(reader).pending(), old(reader).is_closed())
                &&& final(reader).pending() == after_line(old(reader).pending())
                &&& match line {
                    Ok(text) => framing_line(old(reader).pending()) == Ok::<_, FramingError>(text@),
                    Err(error) => framing_line(old(reader).pending()) == Err::<Seq<char>, _>(error),
                }
            },
        },
{
    let ghost bytes = reader.pending();
    let limit: usize = MAX_FRAMING_LINE_BYTES;
    let available: usize = reader.available();
    let mut n: usize = 0;
    let mut ended: bool = false;
    while n < limit && n < available && !ended
        invariant
            limit == MAX_FRAMING_LINE_BYTES,
            available == bytes.len(),
            bytes == reader.pending(),
            n <= limit,
            n <= available,
            forall|j: int| 0 <= j < n - 1 ==> bytes[j] != 10,
            ended <==> n > 0 && bytes[n - 1] == 10,
        decreases limit - n,
    {
        ended = reader.peek(n) == 10;
        n = n + 1;
    }
    proof {
        lemma_line_length_is(bytes, limit as nat, n as nat);
        if n > 0 {
            assert(raw_line(bytes).last() == bytes[n - 1]);
        }
    }
    if !ended && n < limit && !reader.closed() {
        return Progress::Pending;
    }
    let raw: Vec<u8> = reader.take(n);
    match text_from_utf8(raw) {
        None => Progress::Ready(Err(FramingError::StreamNotUtf8)),
        Some(text) => if n == limit && !ended {
            Progress::Ready(Err(FramingError::LineTooLong))
        } else {
            Progress::Ready(Ok(text))
        },
    }
}

/// Whether `bytes` hold no line feed.
pub open spec fn without_line_feed(bytes: Seq<u8>) -> bool {
    forall|i: int| 0 <= i < bytes.len() ==> #[trigger] bytes[i] != 10
}

/// A line ends at its line feed: it is complete as soon as that has arrived, what follows
/// is left, and its text is that of its bytes, if they are UTF-8.
pub proof fn line_ends_at_its_line_feed(raw: Seq<u8>, rest: Seq<u8>, closed: bool)
    requires
        without_line_feed(raw),
        raw.len() < 8192,
    ensures
        ({
            let bytes = raw.push(10) + rest;
            &&& line_complete(bytes, closed)
            &&& after_line(bytes) == rest
            &&& valid_utf8(raw.push(10)) ==> framing_line(bytes) == Ok::<_, FramingError>(
                decode_utf8(raw.push(10)),
            )
            &&& !valid_utf8(raw.push(10)) ==> framing_line(bytes) == Err::<Seq<char>, _>(
                FramingError::StreamNotUtf8,
            )
        }),
{
    let bytes = raw.push(10) + rest;
    let n = raw.len() + 1;
    assert forall|j: int| 0 <= j < n - 1 implies bytes[j] != 10 by {
        assert(bytes[j] == raw[j]);
    }
    assert(bytes[n - 1] == 10);
    lemma_line_length_is(bytes, MAX_FRAMING_LINE_BYTES as nat, n);
    assert(bytes.take(n as int) =~= raw.push(10));
    assert(bytes.skip(n as int) =~= rest);
    assert(raw.push(10).last() == 10);
}

/// Without a line feed a line is complete only when nothing more will arrive; then it is
/// all that has arrived.
pub proof fn unended_line_runs_to_the_end(raw: Seq<u8>, closed: bool)
    requires
        without_line_feed(raw),
        raw.len() < 8192,
    ensures
        line_complete(raw, closed) == closed,
        after_line(raw).len() == 0,
        valid_utf8(raw) ==> framing_line(raw) == Ok::<_, FramingError>(decode_utf8(raw)),
        !valid_utf8(raw) ==> framing_line(raw) == Err::<Seq<char>, _>(FramingError::StreamNotUtf8),
{
    lemma_line_length_is(raw, MAX_FRAMING_LINE_BYTES as nat, raw.len());
    assert(raw.take(raw.len() as int) =~= raw);
    assert(raw.skip(raw.len() as int) =~= seq![]);
    if raw.len() > 0 {
        assert(raw[raw.len() - 1] != 10);
    }
}

/// A line that has no line feed among its first 8192 bytes is refused, at that place.
pub proof fn long_line_is_refused(raw: Seq<u8>, rest: Seq<u8>, closed: bool)
    requires
        without_line_feed(raw),
        raw.len() == 8192,
    ensures
        line_complete(raw + rest, closed),
        after_line(raw + rest) == rest,
        framing_line(raw + rest) == Err::<Seq<char>, _>(
            if valid_utf8(raw) {
                FramingError::LineTooLong
            } else {
                FramingError::StreamNotUtf8
            },
        ),
{
    let bytes = raw + rest;
    assert forall|j: int| 0 <= j < 8192 - 1 implies bytes[j] != 10 by {
        assert(bytes[j] == raw[j]);
    }
    lemma_line_length_is(bytes, MAX_FRAMING_LINE_BYTES as nat, 8192);
    assert(bytes.take(8192) =~= raw);
    assert(bytes.skip(8192) =~= rest);
    assert(raw[8191] != 10);
}

/// Each fault has its message.
pub proof fn faults_have_messages(error: FramingError)
    ensures
        error.message_text() == (match error {
            FramingError::StreamNotUtf8 => "stream did not contain valid UTF-8"@,
            FramingError::LineTooLong => "agy response framing line exceeds 8192 bytes"@,
            FramingError::MalformedStatusLine => "malformed HTTP status line"@,
            FramingError::TooManyHeaders => "agy response sent more than 128 headers"@,
            FramingError::MalformedChunkSize => "malformed chunk size"@,
            FramingError::MalformedChunkEnd =>
                "malformed chunked framing: expected CRLF after chunk body"@,
            FramingError::TooManyTrailers => "agy response sent more than 64 trailer lines"@,
            FramingError::BodyTooLarge => "agy response exceeds 1048576 bytes"@,
            FramingError::UnexpectedEnd => "failed to fill whole buffer"@,
            FramingError::BodyNotUtf8 =>
                "agy response body was not valid UTF-8 (expected Connect JSON)"@,
        }),
{
}

} // verus!
