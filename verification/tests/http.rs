//! Tests of response heads.
use ringdl::http::{
    interpret_response, parse_http_response_header, size_from_header, size_from_response,
    FileSizeError, HttpResponseHeader, RawHeader, RawResponse, ResponseError,
};

fn raw(code: Option<u16>, headers: &[(&str, &[u8])]) -> RawResponse {
    RawResponse {
        header_len: 77,
        code,
        headers: headers
            .iter()
            .map(|(name, value)| RawHeader { name: name.to_string(), value: value.to_vec() })
            .collect(),
    }
}

fn length(headers: &[(&str, &[u8])]) -> Option<u64> {
    interpret_response(&raw(Some(206), headers)).unwrap().content_length
}

#[test]
fn partial_content() {
    let buf: &[u8] = b"HTTP/1.1 206 Partial Content\r\nContent-Range: bytes 0-0/104857600\r\nContent-Length: 1\r\n\r\nX";
    let header = parse_http_response_header(buf).unwrap().unwrap();
    assert_eq!(header.status_code, 206);
    assert_eq!(header.content_length, Some(104857600));
    assert_eq!(header.header_len, buf.len() - 1);
}

#[test]
fn ok_with_length() {
    let buf: &[u8] = b"HTTP/1.1 200 OK\r\ncontent-length:  42 \r\n\r\n";
    let header = parse_http_response_header(buf).unwrap().unwrap();
    assert_eq!(header.status_code, 200);
    assert_eq!(header.content_length, Some(42));
    assert_eq!(header.header_len, buf.len());
}

#[test]
fn incomplete_head() {
    assert!(parse_http_response_header(b"").unwrap().is_none());
    assert!(parse_http_response_header(b"HTTP/1.1 200 OK\r\nContent-Le").unwrap().is_none());
}

#[test]
fn the_cut_makes_no_difference() {
    let head: &[u8] = b"\r\nHTTP/1.1 206 Partial Content\r\nX:\ty\tz  \r\nEmpty:\r\nContent-Range: bytes 0-0/77\nContent-Length: 1\r\n\r\n";
    for n in 0..head.len() {
        assert!(parse_http_response_header(&head[..n]).unwrap().is_none(), "{}", n);
    }
    assert_eq!(head[head.len() - 1], b'\n');
    for rest in [&b""[..], b"\r\n", b"HTTP/1.1 404 No\r\n\r\n", &[0xff; 100]] {
        let buf = [head, rest].concat();
        let header = parse_http_response_header(&buf).unwrap().unwrap();
        assert_eq!(header.header_len, head.len());
        assert_eq!(header.status_code, 206);
        assert_eq!(header.content_length, Some(77));
    }
}

#[test]
fn malformed_head() {
    assert!(matches!(
        parse_http_response_header(b"SSH-2.0-OpenSSH\r\n\r\n"),
        Err(ResponseError::Malformed(httparse::Error::Version))
    ));
}

#[test]
fn too_many_headers() {
    let head = |n: usize| {
        let mut buf = b"HTTP/1.1 200 OK\r\n".to_vec();
        for _ in 0..n {
            buf.extend_from_slice(b"A: b\r\n");
        }
        buf.extend_from_slice(b"\r\n");
        buf
    };
    assert!(parse_http_response_header(&head(64)).unwrap().is_some());
    assert!(matches!(
        parse_http_response_header(&head(65)),
        Err(ResponseError::Malformed(httparse::Error::TooManyHeaders))
    ));
}

#[test]
fn refused_status() {
    assert!(matches!(
        parse_http_response_header(b"HTTP/1.1 404 Not Found\r\n\r\n"),
        Err(ResponseError::Status(404))
    ));
    for code in [100u16, 199, 201, 204, 205, 207, 301, 416, 500] {
        match interpret_response(&raw(Some(code), &[])) {
            Err(ResponseError::Status(refused)) => assert_eq!(refused, code),
            _ => panic!("status {} was accepted", code),
        }
    }
}

#[test]
fn missing_status() {
    assert!(matches!(interpret_response(&raw(None, &[])), Err(ResponseError::MissingStatusCode)));
}

#[test]
fn head_is_kept() {
    let header = interpret_response(&raw(Some(200), &[("Server", b"x")])).unwrap();
    assert_eq!(header.status_code, 200);
    assert_eq!(header.content_length, None);
    assert_eq!(header.header_len, 77);
}

#[test]
fn first_usable_length_counts() {
    assert_eq!(length(&[("Content-Length", b"5"), ("Content-Length", b"6")]), Some(5));
    assert_eq!(length(&[("Content-Length", b"x"), ("CONTENT-LENGTH", b" 6 ")]), Some(6));
    assert_eq!(length(&[("Content-Length", b"\xff"), ("Content-Length", b"+7")]), Some(7));
    assert_eq!(length(&[("Content-Length", b"18446744073709551616")]), None);
}

#[test]
fn last_usable_range_prevails() {
    let cases: &[(&[(&str, &[u8])], Option<u64>)] = &[
        (&[("Content-Range", b"bytes 0-0/9"), ("Content-Length", b"1")], Some(9)),
        (&[("Content-Length", b"1"), ("Content-Range", b"bytes 0-0/9")], Some(9)),
        (&[("Content-Range", b"bytes 0-0/9"), ("Content-Range", b"bytes 0-0/10")], Some(10)),
        (&[("Content-Range", b"bytes 0-0/9"), ("Content-Range", b"bytes 0-0/*")], Some(9)),
        (&[("Content-Range", b"bytes 0-0/*"), ("Content-Length", b"1")], Some(1)),
        (&[("Content-Range", b"bytes 0-0"), ("Content-Length", b"2")], Some(2)),
        (&[("Content-Range", b"bytes 0-0/1/2")], None),
        (&[("content-range", b"bytes 0-0/ 12 ")], Some(12)),
        (&[("Content-Range", b"\xff/3")], None),
        (&[("Content-Range", b"/3")], Some(3)),
    ];
    for (headers, expected) in cases {
        assert_eq!(length(headers), *expected, "{:?}", headers);
    }
}

#[test]
fn size_of_a_probe() {
    let buf: &[u8] = b"HTTP/1.1 206 Partial Content\r\nContent-Range: bytes 0-0/5242880000\r\n\r\n";
    assert!(matches!(size_from_response(buf), Ok(5242880000)));
    assert!(matches!(
        size_from_response(b"HTTP/1.1 206 Partial Content\r\n\r\n"),
        Err(FileSizeError::MissingLength)
    ));
    assert!(matches!(size_from_response(b"HTTP/1.1 206"), Err(FileSizeError::MissingLength)));
    assert!(matches!(
        size_from_response(b"HTTP/1.1 403 Forbidden\r\n\r\n"),
        Err(FileSizeError::Response(ResponseError::Status(403)))
    ));
}

#[test]
fn size_from_results() {
    let header = |content_length| HttpResponseHeader { status_code: 206, content_length, header_len: 1 };
    assert!(matches!(size_from_header(Ok(Some(header(Some(0))))), Ok(0)));
    assert!(matches!(size_from_header(Ok(Some(header(None)))), Err(FileSizeError::MissingLength)));
    assert!(matches!(size_from_header(Ok(None)), Err(FileSizeError::MissingLength)));
    assert!(matches!(
        size_from_header(Err(ResponseError::MissingStatusCode)),
        Err(FileSizeError::Response(ResponseError::MissingStatusCode))
    ));
}
