use antigravity_cli::body::{read_body, BodyReader, MAX_RPC_BODY_BYTES, MAX_TRAILER_LINES};
use antigravity_cli::stream::{
    read_framing_line, ByteStream, FramingError, Progress, MAX_FRAMING_LINE_BYTES,
};

fn body(bytes: Vec<u8>, length: Option<usize>, chunked: bool) -> Result<String, FramingError> {
    let mut reader = ByteStream::complete(bytes);
    read_body(&mut reader, length, chunked)
}

fn chunked(text: &str) -> Result<String, FramingError> {
    body(text.as_bytes().to_vec(), None, true)
}

fn line(bytes: Vec<u8>) -> Result<String, FramingError> {
    let mut reader = ByteStream::complete(bytes);
    match read_framing_line(&mut reader) {
        Progress::Ready(result) => result,
        Progress::Pending => panic!("a complete stream is never pending"),
    }
}

#[test]
fn read_body_content_length() {
    let mut reader = ByteStream::complete(b"hello world".to_vec());
    assert_eq!(
        read_body(&mut reader, Some(11), false).unwrap(),
        "hello world"
    );
}

#[test]
fn read_body_chunked_reassembles() {
    let raw = "5\r\nhello\r\n6\r\n world\r\n0\r\n\r\n";
    let mut reader = ByteStream::complete(raw.as_bytes().to_vec());
    assert_eq!(read_body(&mut reader, None, true).unwrap(), "hello world");
}

#[test]
fn read_body_chunked_strips_extension() {
    let raw = "5;name=value\r\nhello\r\n0\r\n\r\n";
    let mut reader = ByteStream::complete(raw.as_bytes().to_vec());
    assert_eq!(read_body(&mut reader, None, true).unwrap(), "hello");
}

#[test]
fn read_body_rejects_oversized_content_length() {
    let mut reader = ByteStream::complete(vec![b'x'; 8]);
    assert!(read_body(&mut reader, Some(MAX_RPC_BODY_BYTES + 1), false).is_err());
}

#[test]
fn read_body_rejects_oversized_chunk() {
    let raw = format!("{:x}\r\n", MAX_RPC_BODY_BYTES + 1);
    let mut reader = ByteStream::complete(raw.into_bytes());
    assert!(read_body(&mut reader, None, true).is_err());
}

#[test]
fn read_body_close_delimited() {
    let mut reader = ByteStream::complete(b"plain body".to_vec());
    assert_eq!(read_body(&mut reader, None, false).unwrap(), "plain body");
}

#[test]
fn read_body_rejects_oversized_close_delimited() {
    let mut reader = ByteStream::complete(vec![b'x'; MAX_RPC_BODY_BYTES + 1]);
    assert!(read_body(&mut reader, None, false).is_err());
}

#[test]
fn read_body_rejects_malformed_chunk_crlf() {
    let raw = "5\r\nhelloXX0\r\n\r\n";
    let mut reader = ByteStream::complete(raw.as_bytes().to_vec());
    assert!(read_body(&mut reader, None, true).is_err());
}

#[test]
fn body_errors_name_the_fault() {
    assert_eq!(body(vec![b'x'; 8], Some(9), false), Err(FramingError::UnexpectedEnd));
    assert_eq!(
        body(vec![], Some(MAX_RPC_BODY_BYTES + 1), false),
        Err(FramingError::BodyTooLarge)
    );
    assert_eq!(body(vec![0xff], Some(1), false), Err(FramingError::BodyNotUtf8));
    assert_eq!(body(vec![0xff], None, false), Err(FramingError::StreamNotUtf8));
    assert_eq!(chunked("5\r\nhel"), Err(FramingError::UnexpectedEnd));
    assert_eq!(chunked("x\r\nhello\r\n0\r\n\r\n"), Err(FramingError::MalformedChunkSize));
    assert_eq!(chunked(""), Err(FramingError::MalformedChunkSize));
    assert_eq!(chunked("-1\r\n"), Err(FramingError::MalformedChunkSize));
    assert_eq!(chunked("5\r\nhelloXX0\r\n\r\n"), Err(FramingError::MalformedChunkEnd));
    assert_eq!(chunked("5\r\nhello"), Err(FramingError::MalformedChunkEnd));
    assert_eq!(
        body(b"1\r\n\xff\r\n0\r\n\r\n".to_vec(), None, true),
        Err(FramingError::BodyNotUtf8)
    );
    assert_eq!(
        body(vec![b'x'; MAX_RPC_BODY_BYTES + 1], None, false),
        Err(FramingError::BodyTooLarge)
    );
}

#[test]
fn bodies_of_exactly_the_limit_are_read() {
    let full = vec![b'x'; MAX_RPC_BODY_BYTES];
    assert_eq!(
        body(full.clone(), Some(MAX_RPC_BODY_BYTES), false).unwrap().len(),
        MAX_RPC_BODY_BYTES
    );
    assert_eq!(body(full.clone(), None, false).unwrap().len(), MAX_RPC_BODY_BYTES);
    let mut raw = format!("{:x}\r\n", MAX_RPC_BODY_BYTES).into_bytes();
    raw.extend_from_slice(&full);
    raw.extend_from_slice(b"\r\n0\r\n\r\n");
    assert_eq!(body(raw.clone(), None, true).unwrap().len(), MAX_RPC_BODY_BYTES);
    raw.truncate(raw.len() - 5);
    raw.extend_from_slice(b"1\r\nx\r\n0\r\n\r\n");
    assert_eq!(body(raw, None, true), Err(FramingError::BodyTooLarge));
}

#[test]
fn chunk_sizes_in_either_case_and_with_a_sign() {
    assert_eq!(chunked("A\r\n0123456789\r\n0\r\n\r\n").unwrap(), "0123456789");
    assert_eq!(chunked("+a ; x\r\n0123456789\n00\r\n").unwrap(), "0123456789");
}

#[test]
fn a_body_that_overflows_usize_is_malformed() {
    let digits: String = "f".repeat(17);
    let raw = format!("{digits}\r\n");
    assert_eq!(chunked(&raw), Err(FramingError::MalformedChunkSize));
}

#[test]
fn trailers_are_skipped_up_to_the_limit() {
    let trailers = |n: usize| format!("2\r\nok\r\n0\r\n{}\r\n", "a: b\r\n".repeat(n));
    assert_eq!(chunked(&trailers(0)).unwrap(), "ok");
    assert_eq!(chunked(&trailers(MAX_TRAILER_LINES)).unwrap(), "ok");
    assert_eq!(
        chunked(&trailers(MAX_TRAILER_LINES + 1)),
        Err(FramingError::TooManyTrailers)
    );
}

#[test]
fn what_follows_a_framed_body_is_left_alone() {
    let mut reader = ByteStream::complete(b"helloREST".to_vec());
    assert_eq!(read_body(&mut reader, Some(5), false).unwrap(), "hello");
    assert_eq!(reader.available(), 4);
    let mut reader = ByteStream::complete(b"5\r\nhello\r\n0\r\n\r\nREST".to_vec());
    assert_eq!(read_body(&mut reader, None, true).unwrap(), "hello");
    assert_eq!(reader.available(), 4);
}

#[test]
fn a_body_may_arrive_byte_by_byte() {
    let raw = b"5;a=b\r\nhello\r\n7\r\n w\xc3\xb6rld\r\n0\r\nt: r\r\n\r\n";
    let mut stream = ByteStream::new();
    let mut reader = BodyReader::new(None, true);
    let mut found = None;
    for (i, byte) in raw.iter().enumerate() {
        stream.feed(&[*byte]);
        match reader.poll(&mut stream) {
            Progress::Ready(result) => {
                assert_eq!(i, raw.len() - 1);
                found = Some(result);
            }
            Progress::Pending => assert!(i < raw.len() - 1),
        }
    }
    assert_eq!(found.unwrap().unwrap(), "hello wörld");
    assert!(!stream.closed());
    assert_eq!(stream.available(), 0);
}

#[test]
fn a_body_without_a_length_waits_for_the_end() {
    let mut stream = ByteStream::new();
    let mut reader = BodyReader::new(None, false);
    stream.feed(b"plain ");
    assert!(matches!(reader.poll(&mut stream), Progress::Pending));
    stream.feed(b"body");
    assert!(matches!(reader.poll(&mut stream), Progress::Pending));
    stream.close();
    match reader.poll(&mut stream) {
        Progress::Ready(result) => assert_eq!(result.unwrap(), "plain body"),
        Progress::Pending => panic!("the stream is closed"),
    }
}

#[test]
fn framing_lines_keep_their_end() {
    let mut reader = ByteStream::complete(b"one\r\ntwo\nlast".to_vec());
    let mut lines: Vec<String> = Vec::new();
    for _ in 0..4 {
        match read_framing_line(&mut reader) {
            Progress::Ready(result) => lines.push(result.unwrap()),
            Progress::Pending => panic!("a complete stream is never pending"),
        }
    }
    assert_eq!(lines, vec!["one\r\n", "two\n", "last", ""]);
}

#[test]
fn an_open_stream_waits_for_the_end_of_a_line() {
    let mut reader = ByteStream::new();
    reader.feed(b"HTTP/1.1 200");
    assert!(matches!(read_framing_line(&mut reader), Progress::Pending));
    assert_eq!(reader.available(), 12);
    reader.feed(b" OK\r\nrest");
    match read_framing_line(&mut reader) {
        Progress::Ready(result) => assert_eq!(result.unwrap(), "HTTP/1.1 200 OK\r\n"),
        Progress::Pending => panic!("the line is complete"),
    }
    assert_eq!(reader.available(), 4);
}

#[test]
fn framing_lines_are_bounded() {
    let mut fits = vec![b'a'; MAX_FRAMING_LINE_BYTES - 1];
    fits.push(b'\n');
    assert_eq!(line(fits).unwrap().len(), MAX_FRAMING_LINE_BYTES);
    let mut long = vec![b'a'; MAX_FRAMING_LINE_BYTES];
    long.push(b'\n');
    assert_eq!(line(long), Err(FramingError::LineTooLong));
    assert_eq!(line(b"\xff\n".to_vec()), Err(FramingError::StreamNotUtf8));
    assert_eq!(line("grüße\n".as_bytes().to_vec()).unwrap(), "grüße\n");
}

#[test]
fn framing_messages() {
    assert_eq!(
        FramingError::LineTooLong.message(),
        format!("agy response framing line exceeds {MAX_FRAMING_LINE_BYTES} bytes")
    );
    assert_eq!(
        FramingError::BodyTooLarge.message(),
        format!("agy response exceeds {MAX_RPC_BODY_BYTES} bytes")
    );
    assert_eq!(
        FramingError::TooManyTrailers.message(),
        format!("agy response sent more than {MAX_TRAILER_LINES} trailer lines")
    );
    assert_eq!(FramingError::MalformedChunkSize.message(), "malformed chunk size");
}
