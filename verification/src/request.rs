//! The request side: the target URL and the text that is sent for it.
use vstd::prelude::*;
use crate::text::{find, push_decimal, rfind, same_text, to_chars};
#[allow(unused_imports)]
use crate::text::{decimal, is_digit, lemma_decimal_digits};

verus! {

broadcast use vstd::string::group_string_axioms;

/// The errors of the `url` crate's parser.
#[verifier::external_type_specification]
#[verifier::external_body]
pub struct ExUrlParseError(url::ParseError);

/// The parts of a URL that matter for a download.
#[derive(Debug)]
pub struct UrlParts {
    pub scheme: String,
    pub host: Option<String>,
    pub port: Option<u16>,
    pub path: String,
    pub query: Option<String>,
}

/// What `UrlParts` stand for.
pub struct UrlPartsView {
    pub scheme: Seq<char>,
    pub host: Option<Seq<char>>,
    pub port: Option<u16>,
    pub path: Seq<char>,
    pub query: Option<Seq<char>>,
}

/// The text in `s`, if there is any.
pub open spec fn text_of(s: Option<String>) -> Option<Seq<char>> {
    match s {
        Some(text) => Some(text@),
        None => None,
    }
}

impl View for UrlParts {
    type V = UrlPartsView;

    open spec fn view(&self) -> UrlPartsView {
        UrlPartsView {
            scheme: self.scheme@,
            host: text_of(self.host),
            port: self.port,
            path: self.path@,
            query: text_of(self.query),
        }
    }
}

/// What `url::Url::parse` makes of `input`: its scheme, host, port (the explicit
/// one, or the scheme's well-known one), path and query, or an error.
pub uninterp spec fn parsed_url(input: Seq<char>) -> Result<UrlPartsView, url::ParseError>;

/// Calls `url::Url::parse` and copies the parts out of the URL, through
/// `scheme`, `host_str`, `port_or_known_default`, `path` and `query`. The outcome
/// depends on the text alone.
#[verifier::external_body]
fn url_parse(input: &str) -> (parsed: Result<UrlParts, url::ParseError>)
    ensures
        match parsed {
            Ok(parts) => parsed_url(input@) == Ok::<_, url::ParseError>(parts@),
            Err(e) => parsed_url(input@) == Err::<UrlPartsView, _>(e),
        },
{
    let url = url::Url::parse(input)?;
    Ok(
        UrlParts {
            scheme: url.scheme().to_string(),
            host: url.host_str().map(|h| h.to_string()),
            port: url.port_or_known_default(),
            path: url.path().to_string(),
            query: url.query().map(|q| q.to_string()),
        },
    )
}

/// Why a text is no usable download target.
#[derive(Debug)]
pub enum UrlError {
    /// The text is no URL.
    Invalid(url::ParseError),
    /// The URL is neither HTTP nor HTTPS but of the scheme given here.
    UnsupportedScheme(String),
    /// The URL names no host.
    MissingHost,
}

/// A download target.
#[derive(Debug, Clone)]
pub struct ParsedUrl {
    pub scheme: String,
    pub host: String,
    pub port: u16,
    pub path: String,
}

/// What a `ParsedUrl` stands for.
pub struct ParsedUrlView {
    pub scheme: Seq<char>,
    pub host: Seq<char>,
    pub port: u16,
    pub path: Seq<char>,
}

impl View for ParsedUrl {
    type V = ParsedUrlView;

    open spec fn view(&self) -> ParsedUrlView {
        ParsedUrlView {
            scheme: self.scheme@,
            host: self.host@,
            port: self.port,
            path: self.path@,
        }
    }
}

/// Whether downloads over `scheme` are supported.
pub open spec fn supported_scheme(scheme: Seq<char>) -> bool {
    scheme == "http"@ || scheme == "https"@
}

/// The download target that `parts`, of a supported scheme and with the host
/// `host`, name.
pub open spec fn target_of(parts: UrlPartsView, host: Seq<char>) -> ParsedUrlView {
    ParsedUrlView {
        scheme: parts.scheme,
        host,
        port: match parts.port {
            Some(port) => port,
            None => if parts.scheme == "https"@ {
                443
            } else {
                80
            },
        },
        path: match parts.query {
            Some(query) => parts.path + "?"@ + query,
            None => parts.path,
        },
    }
}

/// Whether `target` is the download target that `parts` name, or the reason why
/// they name none.
pub open spec fn resolves_to(parts: UrlPartsView, target: Result<ParsedUrl, UrlError>) -> bool {
    if !supported_scheme(parts.scheme) {
        target matches Err(UrlError::UnsupportedScheme(scheme)) && scheme@ == parts.scheme
    } else {
        match parts.host {
            None => target matches Err(UrlError::MissingHost),
            Some(host) => target matches Ok(url) && url@ == target_of(parts, host),
        }
    }
}

/// The request head up to the fields that differ between requests.
pub open spec fn request_start(url: ParsedUrlView) -> Seq<char> {
    "GET "@ + url.path + " HTTP/1.1\r\nHost: "@ + url.host + ":"@ + decimal(url.port as nat)
        + "\r\nUser-Agent: ringdl/0.1.0\r\nAccept: */*\r\n"@
}

/// The end of every request: the server closes the connection when it is done.
pub open spec fn request_end() -> Seq<char> {
    "Connection: close\r\n\r\n"@
}

/// The request for the whole resource.
pub open spec fn get_request(url: ParsedUrlView) -> Seq<char> {
    request_start(url) + request_end()
}

/// The request for the bytes from `start` to `end`, both included.
pub open spec fn range_request(url: ParsedUrlView, start: nat, end: nat) -> Seq<char> {
    request_start(url) + "Range: bytes="@ + decimal(start) + "-"@ + decimal(end) + "\r\n"@
        + request_end()
}

impl ParsedUrl {
    /// Reads a download target from text.
    pub fn parse(input: &str) -> (target: Result<ParsedUrl, UrlError>)
        ensures
            match parsed_url(input@) {
                Err(e) => target == Err::<ParsedUrl, _>(UrlError::Invalid(e)),
                Ok(parts) => resolves_to(parts, target),
            },
    {
        match url_parse(input) {
            Err(e) => Err(UrlError::Invalid(e)),
            Ok(parts) => Self::from_parts(parts),
        }
    }

    /// The download target that the parts of a URL name.
    pub fn from_parts(parts: UrlParts) -> (target: Result<ParsedUrl, UrlError>)
        ensures
            resolves_to(parts@, target),
    {
        let https = same_text(parts.scheme.as_str(), "https");
        if !https && !same_text(parts.scheme.as_str(), "http") {
            return Err(UrlError::UnsupportedScheme(parts.scheme));
        }
        let host = match parts.host {
            Some(host) => host,
            None => return Err(UrlError::MissingHost),
        };
        let port = match parts.port {
            Some(port) => port,
            None => if https {
                443
            } else {
                80
            },
        };
        let mut path = parts.path;
        if let Some(query) = parts.query {
            path.append("?");
            path.append(query.as_str());
        }
        Ok(ParsedUrl { scheme: parts.scheme, host, port, path })
    }

    /// Whether the target is reached over TLS.
    pub fn is_https(&self) -> (https: bool)
        ensures
            https == (self@.scheme == "https"@),
    {
        same_text(self.scheme.as_str(), "https")
    }

    /// The host and port to resolve, as `host:port`.
    pub fn authority(&self) -> (text: String)
        ensures
            text@ == self@.host + ":"@ + decimal(self@.port as nat),
    {
        let mut text = self.host.clone();
        text.append(":");
        push_decimal(&mut text, self.port as u64);
        text
    }

    fn start_request(&self) -> (text: String)
        ensures
            text@ == request_start(self@),
    {
        let mut text = "GET ".to_owned();
        text.append(self.path.as_str());
        text.append(" HTTP/1.1\r\nHost: ");
        text.append(self.host.as_str());
        text.append(":");
        push_decimal(&mut text, self.port as u64);
        text.append("\r\nUser-Agent: ringdl/0.1.0\r\nAccept: */*\r\n");
        text
    }

    /// The request for the whole resource.
    pub fn build_get_request(&self) -> (text: String)
        ensures
            text@ == get_request(self@),
    {
        let mut text = self.start_request();
        text.append("Connection: close\r\n\r\n");
        text
    }

    /// The request for the bytes from `start` to `end`, both included.
    pub fn build_range_request(&self, start: u64, end: u64) -> (text: String)
        ensures
            text@ == range_request(self@, start as nat, end as nat),
    {
        let mut text = self.start_request();
        text.append("Range: bytes=");
        push_decimal(&mut text, start);
        text.append("-");
        push_decimal(&mut text, end);
        text.append("\r\n");
        text.append("Connection: close\r\n\r\n");
        text
    }

    /// The request that asks for one byte, to learn the size of the resource.
    pub fn build_probe_request(&self) -> (text: String)
        ensures
            text@ == range_request(self@, 0, 0),
    {
        self.build_range_request(0, 0)
    }

    /// The name to save the resource under where the user gives none.
    pub fn default_file_name(&self) -> (name: String)
        ensures
            name@ == file_name(self@.path),
    {
        let chars = to_chars(self.path.as_str());
        let end: usize = match find(&chars, '?') {
            Some(question_mark) => question_mark,
            None => chars.len(),
        };
        assert(chars@.take(chars@.len() as int) == chars@);
        let start: usize = match rfind(&chars, end, '/') {
            Some(slash) => slash + 1,
            None => 0,
        };
        assert(last_segment(before_query(self@.path)) == self@.path.subrange(
            start as int,
            end as int,
        ));
        if start == end {
            "downloaded_file".to_owned()
        } else {
            self.path.as_str().substring_char(start, end).to_owned()
        }
    }
}

/// The part of `path` before its first question mark.
pub open spec fn before_query(path: Seq<char>) -> Seq<char> {
    match path.index_of_first('?') {
        Some(i) => path.take(i),
        None => path,
    }
}

/// The part of `path` behind its last slash.
pub open spec fn last_segment(path: Seq<char>) -> Seq<char> {
    match path.index_of_last('/') {
        Some(i) => path.skip(i + 1),
        None => path,
    }
}

/// The last segment of the path, or a fixed name where that is empty.
pub open spec fn file_name(path: Seq<char>) -> Seq<char> {
    let segment = last_segment(before_query(path));
    if segment.len() == 0 {
        "downloaded_file"@
    } else {
        segment
    }
}

/// The name to save a resource under is never empty and names a file in the current
/// directory: it holds no slash, and no part of the query.
pub proof fn law_file_name_plain(path: Seq<char>)
    ensures
        file_name(path).len() > 0,
        !file_name(path).contains('/'),
        !file_name(path).contains('?'),
{
    reveal_strlit("downloaded_file");
    let base = before_query(path);
    let segment = last_segment(base);
    path.index_of_first_ensures('?');
    base.index_of_last_ensures('/');
    if segment.contains('/') {
        let k = choose|k: int| 0 <= k < segment.len() && segment[k] == '/';
        let shift = base.len() - segment.len();
        assert(base[k + shift] == '/');
        assert(base.contains('/'));
    }
    if segment.contains('?') {
        let k = choose|k: int| 0 <= k < segment.len() && segment[k] == '?';
        let shift = base.len() - segment.len();
        assert(base[k + shift] == '?');
        assert(path[k + shift] == '?');
        assert(path.contains('?'));
    }
}

proof fn lemma_digits_before(a: Seq<char>, x: Seq<char>, b: Seq<char>, y: Seq<char>)
    requires
        a + x == b + y,
        forall|i: int| 0 <= i < a.len() ==> is_digit(#[trigger] a[i]),
        forall|i: int| 0 <= i < b.len() ==> is_digit(#[trigger] b[i]),
        x.len() > 0 && !is_digit(x[0]),
        y.len() > 0 && !is_digit(y[0]),
    ensures
        a == b,
        x == y,
{
    assert((a + x)[a.len() as int] == x[0]);
    assert((b + y)[b.len() as int] == y[0]);
    if a.len() < b.len() {
        assert((b + y)[a.len() as int] == b[a.len() as int]);
    } else if b.len() < a.len() {
        assert((a + x)[b.len() as int] == a[b.len() as int]);
    }
    assert((a + x).take(a.len() as int) =~= a);
    assert((b + y).take(b.len() as int) =~= b);
    assert((a + x).skip(a.len() as int) =~= x);
    assert((b + y).skip(b.len() as int) =~= y);
}

/// A request tells which bytes it asks for: requests for different parts of the
/// same resource differ.
pub proof fn law_range_request_exact(
    url: ParsedUrlView,
    start: nat,
    end: nat,
    other_start: nat,
    other_end: nat,
)
    requires
        range_request(url, start, end) == range_request(url, other_start, other_end),
    ensures
        start == other_start,
        end == other_end,
{
    reveal_strlit("-");
    reveal_strlit("\r\n");
    let head = request_start(url) + "Range: bytes="@;
    let tail = "\r\n"@ + request_end();
    let rest = "-"@ + (decimal(end) + tail);
    let other_rest = "-"@ + (decimal(other_end) + tail);
    assert(range_request(url, start, end) =~= head + (decimal(start) + rest));
    assert(range_request(url, other_start, other_end) =~= head + (decimal(other_start)
        + other_rest));
    assert((head + (decimal(start) + rest)).skip(head.len() as int) =~= decimal(start) + rest);
    assert((head + (decimal(other_start) + other_rest)).skip(head.len() as int) =~= decimal(
        other_start,
    ) + other_rest);
    lemma_decimal_digits(start);
    lemma_decimal_digits(other_start);
    lemma_decimal_digits(end);
    lemma_decimal_digits(other_end);
    lemma_digits_before(decimal(start), rest, decimal(other_start), other_rest);
    assert(rest.skip(1) =~= decimal(end) + tail);
    assert(other_rest.skip(1) =~= decimal(other_end) + tail);
    lemma_digits_before(decimal(end), tail, decimal(other_end), tail);
}

/// What a URL is resolved to follows its parts: the scheme and the host are kept; a port
/// that is given is the port, whatever the scheme, and otherwise it is 443 for HTTPS and 80
/// for HTTP; and the path is followed, where there is a query, by a question mark and the
/// query. A URL of another scheme or without a host is refused for that reason.
pub proof fn law_target_follows_parts(parts: UrlPartsView, target: Result<ParsedUrl, UrlError>)
    requires
        resolves_to(parts, target),
    ensures
        target is Ok <==> (parts.scheme == "http"@ || parts.scheme == "https"@)
            && parts.host is Some,
        target matches Ok(url) ==> {
            &&& url.scheme@ == parts.scheme
            &&& parts.host == Some(url.host@)
            &&& parts.port matches Some(port) ==> url.port == port
            &&& parts.port is None && parts.scheme == "https"@ ==> url.port == 443
            &&& parts.port is None && parts.scheme == "http"@ ==> url.port == 80
            &&& parts.query is None ==> url.path@ == parts.path
            &&& parts.query matches Some(query) ==> url.path@ == parts.path + seq!['?'] + query
        },
        target matches Err(UrlError::UnsupportedScheme(scheme)) ==> scheme@ == parts.scheme,
        target matches Err(UrlError::MissingHost) <==> (parts.scheme == "http"@ || parts.scheme
            == "https"@) && parts.host is None,
        !(target matches Err(UrlError::Invalid(_))),
{
    reveal_strlit("http");
    reveal_strlit("https");
    reveal_strlit("?");
    assert("?"@ =~= seq!['?']);
    assert("http"@.len() != "https"@.len());
}

/// The lines of `text`, which are told apart by a carriage return with a line feed.
pub open spec fn lines(text: Seq<char>) -> Seq<Seq<char>>
    decreases text.len(),
    via lines_decreases
{
    match text.index_of_first('\r') {
        Some(i) => if i + 1 < text.len() && text[i + 1] == '\n' {
            seq![text.take(i)] + lines(text.skip(i + 2))
        } else {
            seq![text]
        },
        None => seq![text],
    }
}

#[via_fn]
proof fn lines_decreases(text: Seq<char>) {
    text.index_of_first_ensures('\r');
}

/// A line without a carriage return, ended and followed by `rest`, is the first line.
proof fn lemma_first_line(line: Seq<char>, rest: Seq<char>)
    requires
        !line.contains('\r'),
    ensures
        lines(line + seq!['\r', '\n'] + rest) == seq![line] + lines(rest),
{
    let text = line + seq!['\r', '\n'] + rest;
    let i = line.len() as int;
    text.index_of_first_ensures('\r');
    assert(text[i] == '\r' && text[i + 1] == '\n');
    assert(text.contains('\r'));
    let first = text.index_of_first('\r')->Some_0;
    if first < i {
        assert(text[first] == line[first]);
        assert(line.contains('\r'));
    }
    assert(first == i);
    assert(text.take(i) =~= line);
    assert(text.skip(i + 2) =~= rest);
}

proof fn lemma_no_return(a: Seq<char>, b: Seq<char>)
    requires
        !a.contains('\r'),
        !b.contains('\r'),
    ensures
        !(a + b).contains('\r'),
{
    if (a + b).contains('\r') {
        let k = choose|k: int| 0 <= k < (a + b).len() && (a + b)[k] == '\r';
        if k < a.len() {
            assert(a[k] == '\r');
        } else {
            assert(b[k - a.len()] == '\r');
        }
    }
}

proof fn lemma_decimal_no_return(n: nat)
    ensures
        !decimal(n).contains('\r'),
{
    lemma_decimal_digits(n);
    if decimal(n).contains('\r') {
        let k = choose|k: int| 0 <= k < decimal(n).len() && decimal(n)[k] == '\r';
        assert(is_digit(decimal(n)[k]));
    }
}

/// The lines that every request starts with.
pub open spec fn first_lines(path: Seq<char>, host: Seq<char>, port: u16) -> Seq<Seq<char>> {
    seq![
        "GET "@ + path + " HTTP/1.1"@,
        "Host: "@ + host + ":"@ + decimal(port as nat),
        "User-Agent: ringdl/0.1.0"@,
        "Accept: */*"@,
    ]
}

/// The lines that every request ends with: the connection is to be closed, and an empty
/// line ends the head.
pub open spec fn last_lines() -> Seq<Seq<char>> {
    seq!["Connection: close"@, Seq::<char>::empty(), Seq::<char>::empty()]
}

/// The lines of a text that starts as every request does.
proof fn lemma_request_start(url: ParsedUrlView, rest: Seq<char>)
    requires
        !url.path.contains('\r'),
        !url.host.contains('\r'),
    ensures
        lines(request_start(url) + rest) == first_lines(url.path, url.host, url.port) + lines(rest),
{
    reveal_strlit("GET ");
    reveal_strlit(" HTTP/1.1\r\nHost: ");
    reveal_strlit(" HTTP/1.1");
    reveal_strlit("Host: ");
    reveal_strlit(":");
    reveal_strlit("\r\nUser-Agent: ringdl/0.1.0\r\nAccept: */*\r\n");
    reveal_strlit("User-Agent: ringdl/0.1.0");
    reveal_strlit("Accept: */*");
    let crlf = seq!['\r', '\n'];
    let port = decimal(url.port as nat);
    let l1 = "GET "@ + url.path + " HTTP/1.1"@;
    let l2 = "Host: "@ + url.host + ":"@ + port;
    let l3 = "User-Agent: ringdl/0.1.0"@;
    let l4 = "Accept: */*"@;
    assert(" HTTP/1.1\r\nHost: "@ =~= " HTTP/1.1"@ + crlf + "Host: "@);
    assert("\r\nUser-Agent: ringdl/0.1.0\r\nAccept: */*\r\n"@ =~= crlf + l3 + crlf + l4 + crlf);
    lemma_no_return("GET "@, url.path);
    lemma_no_return("GET "@ + url.path, " HTTP/1.1"@);
    lemma_no_return("Host: "@, url.host);
    lemma_no_return("Host: "@ + url.host, ":"@);
    lemma_decimal_no_return(url.port as nat);
    lemma_no_return("Host: "@ + url.host + ":"@, port);
    let r4 = l4 + crlf + rest;
    let r3 = l3 + crlf + r4;
    let r2 = l2 + crlf + r3;
    let r1 = l1 + crlf + r2;
    assert(request_start(url) + rest =~= r1);
    lemma_first_line(l1, r2);
    lemma_first_line(l2, r3);
    lemma_first_line(l3, r4);
    lemma_first_line(l4, rest);
    assert(lines(r1) =~= first_lines(url.path, url.host, url.port) + lines(rest));
}

proof fn lemma_request_end()
    ensures
        lines(request_end()) == last_lines(),
{
    reveal_strlit("Connection: close\r\n\r\n");
    reveal_strlit("Connection: close");
    let crlf = seq!['\r', '\n'];
    let none = Seq::<char>::empty();
    let close = "Connection: close"@;
    assert(request_end() =~= close + crlf + (none + crlf + none));
    lemma_first_line(close, none + crlf + none);
    lemma_first_line(none, none);
    none.index_of_first_ensures('\r');
    assert(lines(none) == seq![none]);
    assert(lines(request_end()) =~= last_lines());
}

/// A request consists of these lines and no others: it names its whole target, query
/// included, and the host with its port; the request for part of a resource names the first
/// and the last byte; and the server is to close the connection. Paths and hosts hold no
/// carriage return.
pub proof fn law_request_lines(url: ParsedUrlView, start: nat, end: nat)
    requires
        !url.path.contains('\r'),
        !url.host.contains('\r'),
    ensures
        lines(get_request(url)) == first_lines(url.path, url.host, url.port) + last_lines(),
        lines(range_request(url, start, end)) == first_lines(url.path, url.host, url.port) + seq![
            "Range: bytes="@ + decimal(start) + "-"@ + decimal(end),
        ] + last_lines(),
{
    lemma_request_end();
    lemma_request_start(url, request_end());
    reveal_strlit("Range: bytes=");
    reveal_strlit("-");
    reveal_strlit("\r\n");
    let crlf = seq!['\r', '\n'];
    assert("\r\n"@ =~= crlf);
    let line = "Range: bytes="@ + decimal(start) + "-"@ + decimal(end);
    lemma_decimal_no_return(start);
    lemma_decimal_no_return(end);
    lemma_no_return("Range: bytes="@, decimal(start));
    lemma_no_return("Range: bytes="@ + decimal(start), "-"@);
    lemma_no_return("Range: bytes="@ + decimal(start) + "-"@, decimal(end));
    lemma_first_line(line, request_end());
    assert(range_request(url, start, end) =~= request_start(url) + (line + crlf + request_end()));
    lemma_request_start(url, line + crlf + request_end());
    assert(lines(range_request(url, start, end)) =~= first_lines(url.path, url.host, url.port)
        + seq![line] + last_lines());
}

/// Behind `GET ` and up to the next space, a request holds exactly the path of its target,
/// query included, where the path holds no space.
pub proof fn law_request_names_path(url: ParsedUrlView, start: nat, end: nat)
    requires
        !url.path.contains(' '),
    ensures
        ({
            let text = range_request(url, start, end);
            let n = url.path.len() as int;
            &&& text.take(4) == seq!['G', 'E', 'T', ' ']
            &&& text.skip(4).take(n) == url.path
            &&& text.skip(4).index_of_first(' ') == Some(n)
        }),
        ({
            let text = get_request(url);
            let n = url.path.len() as int;
            &&& text.take(4) == seq!['G', 'E', 'T', ' ']
            &&& text.skip(4).take(n) == url.path
            &&& text.skip(4).index_of_first(' ') == Some(n)
        }),
{
    reveal_strlit("GET ");
    reveal_strlit(" HTTP/1.1\r\nHost: ");
    assert(range_request(url, start, end).take(4) =~= seq!['G', 'E', 'T', ' ']);
    assert(get_request(url).take(4) =~= seq!['G', 'E', 'T', ' ']);
    lemma_names_path(url.path, range_request(url, start, end));
    lemma_names_path(url.path, get_request(url));
}

proof fn lemma_names_path(path: Seq<char>, text: Seq<char>)
    requires
        !path.contains(' '),
        text.len() > 4 + path.len(),
        text.take(4) == seq!['G', 'E', 'T', ' '],
        forall|i: int| 0 <= i < path.len() ==> text[4 + i] == #[trigger] path[i],
        text[4 + path.len() as int] == ' ',
    ensures
        text.skip(4).take(path.len() as int) == path,
        text.skip(4).index_of_first(' ') == Some(path.len() as int),
{
    let rest = text.skip(4);
    let n = path.len() as int;
    rest.index_of_first_ensures(' ');
    assert(rest[n] == ' ');
    assert(rest.contains(' '));
    let first = rest.index_of_first(' ')->Some_0;
    if first < n {
        assert(rest[first] == path[first]);
        assert(path.contains(' '));
    }
    assert(rest.take(n) =~= path);
}

proof fn lemma_host_and_port(host: Seq<char>, port: nat, other: Seq<char>, other_port: nat)
    requires
        host + ":"@ + decimal(port) == other + ":"@ + decimal(other_port),
    ensures
        host == other,
        port == other_port,
{
    reveal_strlit(":");
    let a = decimal(port);
    let b = decimal(other_port);
    let x = host + ":"@ + a;
    let y = other + ":"@ + b;
    lemma_decimal_digits(port);
    lemma_decimal_digits(other_port);
    if a.len() < b.len() {
        let k = x.len() - 1 - a.len();
        assert(x[k] == ':');
        assert(y[k] == b[k - other.len() - 1]);
        assert(is_digit(b[k - other.len() - 1]));
    } else if b.len() < a.len() {
        let k = y.len() - 1 - b.len();
        assert(y[k] == ':');
        assert(x[k] == a[k - host.len() - 1]);
        assert(is_digit(a[k - host.len() - 1]));
    }
    assert(x.take(host.len() as int) =~= host);
    assert(y.take(other.len() as int) =~= other);
    assert(x.skip(host.len() as int + 1) =~= a);
    assert(y.skip(other.len() as int + 1) =~= b);
}

/// Requests differ where their targets do: two requests are the same text only for the same
/// path, host and port and the same bytes.
pub proof fn law_requests_differ(
    url: ParsedUrlView,
    start: nat,
    end: nat,
    other: ParsedUrlView,
    other_start: nat,
    other_end: nat,
)
    requires
        !url.path.contains('\r'),
        !url.host.contains('\r'),
        !other.path.contains('\r'),
        !other.host.contains('\r'),
        range_request(url, start, end) == range_request(other, other_start, other_end),
    ensures
        url.path == other.path,
        url.host == other.host,
        url.port == other.port,
        start == other_start,
        end == other_end,
{
    law_request_lines(url, start, end);
    law_request_lines(other, other_start, other_end);
    let a = lines(range_request(url, start, end));
    let b = lines(range_request(other, other_start, other_end));
    assert(a[0] == "GET "@ + url.path + " HTTP/1.1"@);
    assert(b[0] == "GET "@ + other.path + " HTTP/1.1"@);
    reveal_strlit("GET ");
    reveal_strlit(" HTTP/1.1");
    assert(a[0].subrange(4, a[0].len() - 9) =~= url.path);
    assert(b[0].subrange(4, b[0].len() - 9) =~= other.path);
    assert(a[1] == "Host: "@ + url.host + ":"@ + decimal(url.port as nat));
    assert(b[1] == "Host: "@ + other.host + ":"@ + decimal(other.port as nat));
    reveal_strlit("Host: ");
    assert(a[1].skip(6) =~= url.host + ":"@ + decimal(url.port as nat));
    assert(b[1].skip(6) =~= other.host + ":"@ + decimal(other.port as nat));
    lemma_host_and_port(url.host, url.port as nat, other.host, other.port as nat);
    assert(request_start(url) == request_start(other));
    law_range_request_exact(url, start, end, other_start, other_end);
}

/// The default name of a file is the last segment of the path, without the query: whatever
/// directory comes before it and whatever query comes behind it. Where that segment is
/// empty, the name is `downloaded_file`.
pub proof fn law_file_name_is_last_segment(
    directory: Seq<char>,
    name: Seq<char>,
    query: Seq<char>,
)
    requires
        !directory.contains('?'),
        directory.len() == 0 || directory.last() == '/',
        !name.contains('/') && !name.contains('?'),
        query.len() == 0 || query[0] == '?',
    ensures
        name.len() > 0 ==> file_name(directory + name + query) == name,
        name.len() == 0 ==> file_name(directory + name + query) == "downloaded_file"@,
{
    let path = directory + name + query;
    let base = directory + name;
    path.index_of_first_ensures('?');
    if base.contains('?') {
        let k = choose|k: int| 0 <= k < base.len() && base[k] == '?';
        if k < directory.len() {
            assert(directory[k] == '?');
        } else {
            assert(name[k - directory.len()] == '?');
        }
    }
    if query.len() == 0 {
        assert(path =~= base);
        assert(before_query(path) == base);
    } else {
        assert(path[base.len() as int] == '?');
        assert(path.contains('?'));
        let i = path.index_of_first('?')->Some_0;
        if i < base.len() {
            assert(path[i] == base[i]);
            assert(base.contains('?'));
        }
        assert(i == base.len());
        assert(path.take(i) =~= base);
    }
    base.index_of_last_ensures('/');
    if directory.len() == 0 {
        assert(base =~= name);
        assert(last_segment(base) == name);
    } else {
        let last = directory.len() - 1;
        assert(base[last] == '/');
        assert(base.contains('/'));
        let i = base.index_of_last('/')->Some_0;
        if i > last {
            assert(base[i] == name[i - directory.len()]);
            assert(name.contains('/'));
        }
        assert(i == last);
        assert(base.skip(i + 1) =~= name);
    }
}

/// What stands for the parts of a URL and for a target says of each part what the part is.
pub proof fn law_url_views(parts: UrlParts, url: ParsedUrl)
    ensures
        parts@.scheme == parts.scheme@,
        parts.host is None <==> parts@.host is None,
        parts.host matches Some(host) ==> parts@.host == Some(host@),
        parts@.port == parts.port,
        parts@.path == parts.path@,
        parts.query is None <==> parts@.query is None,
        parts.query matches Some(query) ==> parts@.query == Some(query@),
        url@.scheme == url.scheme@,
        url@.host == url.host@,
        url@.port == url.port,
        url@.path == url.path@,
{
}

} // verus!
