use antigravity_cli::http::{
    healthz_request, http_status, read_health, rpc_request, ResponseReader, RpcError, MAX_HEADERS,
};
use antigravity_cli::stream::{ByteStream, FramingError, Progress};

fn reply(bytes: &[u8]) -> Result<String, RpcError> {
    let mut stream = ByteStream::complete(bytes.to_vec());
    match ResponseReader::new().poll(&mut stream) {
        Progress::Ready(result) => result,
        Progress::Pending => panic!("a complete stream is never pending"),
    }
}

fn healthy(bytes: &[u8]) -> bool {
    let mut stream = ByteStream::complete(bytes.to_vec());
    match read_health(&mut stream) {
        Progress::Ready(result) => result,
        Progress::Pending => panic!("a complete stream is never pending"),
    }
}

#[test]
fn http_status_parses_valid_and_rejects_non_http() {
    assert_eq!(http_status("HTTP/1.1 200 OK"), Some(200));
    assert_eq!(http_status("HTTP/1.1 404"), Some(404));
    assert_eq!(http_status("GARBAGE 200 OK"), None);
    assert_eq!(http_status(""), None);
}

#[test]
fn http_status_takes_the_second_word() {
    assert_eq!(http_status("  HTTP/2\t503 \r\n"), Some(503));
    assert_eq!(http_status("HTTP/1.1"), None);
    assert_eq!(http_status("HTTP/1.1 OK"), None);
    assert_eq!(http_status("HTTP/1.1 65535"), Some(65535));
    assert_eq!(http_status("HTTP/1.1 65536"), None);
    assert_eq!(http_status("HTTP/1.1 +200"), Some(200));
    assert_eq!(http_status("HTTP/1.1 -200"), None);
    assert_eq!(http_status("HTTP/1.1\u{2003}204\u{2003}x"), Some(204));
    assert_eq!(http_status("http/1.1 200"), None);
}

#[test]
fn requests_are_written_out() {
    assert_eq!(
        healthz_request(34163),
        "GET /healthz HTTP/1.1\r\nHost: 127.0.0.1:34163\r\nConnection: close\r\n\r\n"
    );
    assert_eq!(
        rpc_request(7, "GetUserStatus", "{}"),
        "POST /exa.language_server_pb.LanguageServerService/GetUserStatus HTTP/1.1\r\n\
         Host: 127.0.0.1:7\r\n\
         Content-Type: application/json\r\n\
         Connect-Protocol-Version: 1\r\n\
         Content-Length: 2\r\n\
         Connection: close\r\n\r\n{}"
    );
    assert!(rpc_request(7, "M", "ä").contains("Content-Length: 2\r\n"));
}

#[test]
fn a_sized_reply_is_read() {
    let raw = b"HTTP/1.1 200 OK\r\nContent-Type: application/json\r\nContent-Length: 2\r\n\r\n{}x";
    assert_eq!(reply(raw).unwrap(), "{}");
}

#[test]
fn a_chunked_reply_is_read() {
    let raw = b"HTTP/1.1 200 OK\r\nTRANSFER-ENCODING: gzip , Chunked\r\n\r\n5\r\nhello\r\n0\r\n\r\n";
    assert_eq!(reply(raw).unwrap(), "hello");
}

#[test]
fn chunks_count_more_than_a_length() {
    let raw =
        b"HTTP/1.1 200 OK\r\nContent-Length: 3\r\nTransfer-Encoding: chunked\r\n\r\n2\r\nok\r\n0\r\n\r\n";
    assert_eq!(reply(raw).unwrap(), "ok");
}

#[test]
fn an_unsized_reply_runs_to_the_end() {
    assert_eq!(reply(b"HTTP/1.1 200\r\n\r\nall of it").unwrap(), "all of it");
    assert_eq!(
        reply(b"HTTP/1.1 200\r\nContent-Length: many\r\n\r\nall of it").unwrap(),
        "all of it"
    );
}

#[test]
fn the_last_length_counts() {
    let raw = b"HTTP/1.1 200\r\ncontent-length: 1\r\nContent-LENGTH:  3 \r\n\r\nabcdef";
    assert_eq!(reply(raw).unwrap(), "abc");
    let raw = b"HTTP/1.1 200\r\ncontent-length: 1\r\ncontent-length: x\r\n\r\nabcdef";
    assert_eq!(reply(raw).unwrap(), "abcdef");
}

#[test]
fn a_status_other_than_200_fails_with_the_message() {
    let raw = b"HTTP/1.1 503 Busy\r\nContent-Length: 9\r\n\r\n try it \n";
    match reply(raw) {
        Err(error) => {
            assert!(matches!(error, RpcError::Status(503, _)));
            assert_eq!(
                error.message("GetUserStatus"),
                "agy GetUserStatus returned HTTP 503: try it"
            );
        }
        Ok(_) => panic!("503 is no success"),
    }
}

#[test]
fn a_status_line_must_be_one_of_http() {
    assert!(matches!(
        reply(b"SSH-2.0-x\r\n"),
        Err(RpcError::Framing(FramingError::MalformedStatusLine))
    ));
    assert!(matches!(
        reply(b""),
        Err(RpcError::Framing(FramingError::MalformedStatusLine))
    ));
}

#[test]
fn headers_are_counted() {
    let with = |n: usize| {
        let mut raw = b"HTTP/1.1 200 OK\r\n".to_vec();
        for _ in 0..n {
            raw.extend_from_slice(b"a: b\r\n");
        }
        raw.extend_from_slice(b"\r\nbody");
        raw
    };
    assert_eq!(reply(&with(MAX_HEADERS)).unwrap(), "body");
    assert!(matches!(
        reply(&with(MAX_HEADERS + 1)),
        Err(RpcError::Framing(FramingError::TooManyHeaders))
    ));
    assert_eq!(
        FramingError::TooManyHeaders.message(),
        format!("agy response sent more than {MAX_HEADERS} headers")
    );
}

#[test]
fn a_reply_may_arrive_byte_by_byte() {
    let raw = b"HTTP/1.1 200 OK\r\nContent-Length: 11\r\nX: y\r\n\r\nhello world";
    let mut stream = ByteStream::new();
    let mut reader = ResponseReader::new();
    for (i, byte) in raw.iter().enumerate() {
        stream.feed(&[*byte]);
        match reader.poll(&mut stream) {
            Progress::Ready(result) => {
                assert_eq!(i, raw.len() - 1);
                assert_eq!(result.unwrap(), "hello world");
            }
            Progress::Pending => assert!(i < raw.len() - 1),
        }
    }
}

#[test]
fn a_server_is_up_on_status_200_alone() {
    assert!(healthy(b"HTTP/1.1 200 OK\r\n\r\n"));
    assert!(!healthy(b"HTTP/1.1 204 No Content\r\n\r\n"));
    assert!(!healthy(b"garbage"));
    assert!(!healthy(b"\xff\n"));
    assert!(!healthy(b""));
    let mut stream = ByteStream::new();
    stream.feed(b"HTTP/1.1 200");
    assert!(matches!(read_health(&mut stream), Progress::Pending));
}
