//! Tests of targets, requests and the options.
use ringdl::cli::Cli;
use ringdl::net::{choose_address, connect_outcome, ConnectError, ResolvedAddr};
use ringdl::request::{ParsedUrl, UrlError, UrlParts};

fn target(path: &str) -> ParsedUrl {
    ParsedUrl {
        scheme: "http".to_string(),
        host: "example.com".to_string(),
        port: 8080,
        path: path.to_string(),
    }
}

fn parts(scheme: &str, host: Option<&str>, port: Option<u16>, path: &str, query: Option<&str>) -> UrlParts {
    UrlParts {
        scheme: scheme.to_string(),
        host: host.map(|h| h.to_string()),
        port,
        path: path.to_string(),
        query: query.map(|q| q.to_string()),
    }
}

#[test]
fn full_url() {
    let url = ParsedUrl::parse("https://172.18.0.100:8443/test.bin?a=1&b=2#frag").unwrap();
    assert_eq!(url.scheme, "https");
    assert_eq!(url.host, "172.18.0.100");
    assert_eq!(url.port, 8443);
    assert_eq!(url.path, "/test.bin?a=1&b=2");
    assert!(url.is_https());
}

#[test]
fn well_known_ports() {
    assert_eq!(ParsedUrl::parse("http://example.com").unwrap().port, 80);
    assert_eq!(ParsedUrl::parse("https://example.com").unwrap().port, 443);
    assert_eq!(ParsedUrl::parse("http://example.com").unwrap().path, "/");
    assert!(!ParsedUrl::parse("http://example.com").unwrap().is_https());
}

#[test]
fn url_is_normalised() {
    let url = ParsedUrl::parse("HTTP://Example.COM:80/a b/../c d?x y").unwrap();
    assert_eq!(url.scheme, "http");
    assert_eq!(url.host, "example.com");
    assert_eq!(url.port, 80);
    assert_eq!(url.path, "/c%20d?x%20y");
}

#[test]
fn no_url() {
    assert!(matches!(
        ParsedUrl::parse("not a url"),
        Err(UrlError::Invalid(url::ParseError::RelativeUrlWithoutBase))
    ));
    assert!(matches!(
        ParsedUrl::parse("http://example.com:99999/"),
        Err(UrlError::Invalid(url::ParseError::InvalidPort))
    ));
}

#[test]
fn other_schemes_are_refused() {
    match ParsedUrl::parse("ftp://example.com/file") {
        Err(UrlError::UnsupportedScheme(scheme)) => assert_eq!(scheme, "ftp"),
        _ => panic!("ftp was accepted"),
    }
    assert!(matches!(
        ParsedUrl::from_parts(parts("HTTP", Some("h"), None, "/", None)),
        Err(UrlError::UnsupportedScheme(_))
    ));
}

#[test]
fn parts_without_host() {
    assert!(matches!(
        ParsedUrl::from_parts(parts("http", None, Some(80), "/", None)),
        Err(UrlError::MissingHost)
    ));
    assert!(matches!(
        ParsedUrl::from_parts(parts("file", None, None, "/", None)),
        Err(UrlError::UnsupportedScheme(_))
    ));
}

#[test]
fn parts_without_port() {
    assert_eq!(ParsedUrl::from_parts(parts("http", Some("h"), None, "/", None)).unwrap().port, 80);
    assert_eq!(ParsedUrl::from_parts(parts("https", Some("h"), None, "/", None)).unwrap().port, 443);
}

#[test]
fn parts_with_query() {
    let url = ParsedUrl::from_parts(parts("http", Some("h"), Some(1), "/p", Some("q=1"))).unwrap();
    assert_eq!(url.path, "/p?q=1");
    let url = ParsedUrl::from_parts(parts("http", Some("h"), Some(1), "/p", Some(""))).unwrap();
    assert_eq!(url.path, "/p?");
}

#[test]
fn get_request_text() {
    assert_eq!(
        target("/file.bin").build_get_request(),
        "GET /file.bin HTTP/1.1\r\nHost: example.com:8080\r\nUser-Agent: ringdl/0.1.0\r\nAccept: */*\r\nConnection: close\r\n\r\n"
    );
}

#[test]
fn range_request_text() {
    assert_eq!(
        target("/file.bin").build_range_request(1048576, 2097151),
        "GET /file.bin HTTP/1.1\r\nHost: example.com:8080\r\nUser-Agent: ringdl/0.1.0\r\nAccept: */*\r\nRange: bytes=1048576-2097151\r\nConnection: close\r\n\r\n"
    );
}

#[test]
fn probe_request_text() {
    assert_eq!(
        target("/").build_probe_request(),
        "GET / HTTP/1.1\r\nHost: example.com:8080\r\nUser-Agent: ringdl/0.1.0\r\nAccept: */*\r\nRange: bytes=0-0\r\nConnection: close\r\n\r\n"
    );
}

#[test]
fn range_requests_differ() {
    let url = target("/x");
    assert_ne!(url.build_range_request(1, 23), url.build_range_request(12, 3));
    assert_ne!(url.build_range_request(1, 2), url.build_range_request(1, 3));
}

#[test]
fn authority_text() {
    assert_eq!(target("/").authority(), "example.com:8080");
}

#[test]
fn file_names() {
    assert_eq!(target("/a/b/file.bin?x=/y").default_file_name(), "file.bin");
    assert_eq!(target("/").default_file_name(), "downloaded_file");
    assert_eq!(target("/dir/").default_file_name(), "downloaded_file");
    assert_eq!(target("/dir/?name").default_file_name(), "downloaded_file");
    assert_eq!(target("plain").default_file_name(), "plain");
    assert_eq!(target("").default_file_name(), "downloaded_file");
    assert_eq!(target("/é/日本.bin").default_file_name(), "日本.bin");
}

#[test]
fn default_options() {
    let cli = Cli::with_defaults("http://example.com/f".to_string());
    assert_eq!(cli.url, "http://example.com/f");
    assert_eq!(cli.connections, 16);
    assert_eq!(cli.buf_size, 1048576);
    assert_eq!(cli.ring_entries, 128);
    assert_eq!(cli.block_size_kb, 64);
    let engine = cli.engine();
    assert_eq!(engine.num_connections(), 16);
    assert_eq!((engine.sq_entries, engine.cq_entries), (128, 128));
    assert_eq!(cli.output_path(&target("/f.bin?q")), b"f.bin".to_vec());
}

#[test]
fn given_output() {
    let mut cli = Cli::with_defaults("http://example.com/f".to_string());
    cli.output = Some(b"/tmp/\xffout".to_vec());
    assert_eq!(cli.output_path(&target("/f.bin")), b"/tmp/\xffout".to_vec());
}

#[test]
fn addresses() {
    assert!(matches!(
        choose_address(Some(ResolvedAddr::V4 { ip: 0x7f000001, port: 80 })),
        Ok((0x7f000001, 80))
    ));
    assert!(matches!(choose_address(Some(ResolvedAddr::V6)), Err(ConnectError::Ipv6Unsupported)));
    assert!(matches!(choose_address(None), Err(ConnectError::Unresolved)));
}

#[test]
fn connect_outcomes() {
    assert!(connect_outcome(None, 115).is_ok());
    assert!(connect_outcome(Some(115), 115).is_ok());
    assert!(matches!(connect_outcome(Some(111), 115), Err(ConnectError::Refused(111))));
}

#[test]
fn server_names() {
    let named = ParsedUrl::parse("https://example.com/").unwrap().server_name().unwrap();
    assert_eq!(named.to_str(), "example.com");
    let addressed = ParsedUrl::parse("https://172.18.0.100/").unwrap().server_name().unwrap();
    assert!(matches!(addressed, rustls::pki_types::ServerName::IpAddress(_)));
    let mut broken = target("/");
    broken.host = "no such host".to_string();
    assert!(matches!(broken.server_name(), Err(ConnectError::InvalidServerName)));
}
