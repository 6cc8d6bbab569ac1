//! The HTTP side: response heads.
use vstd::prelude::*;
use vstd::utf8::{decode_utf8, valid_utf8};
use crate::text::{eq_ignore_ascii_case, find, parse_trimmed_u64, to_chars};
#[allow(unused_imports)]
use crate::text::{
    blank,
    decimal,
    is_white_space,
    law_number_reading,
    law_trim,
    lemma_decimal_digits,
    same_ignoring_ascii_case,
    trim,
    u64_of,
};

verus! {

broadcast use vstd::string::group_string_axioms;

/// The most header fields that a response may carry.
pub const MAX_HEADERS: usize = 64;

/// The byte that ends a line.
pub const LINE_FEED: u8 = 10;

/// The errors of the `httparse` crate.
#[verifier::external_type_specification]
#[verifier::external_body]
pub struct ExHttparseError(httparse::Error);

/// One header field, as it came.
#[derive(Debug)]
pub struct RawHeader {
    pub name: String,
    pub value: Vec<u8>,
}

/// What a `RawHeader` stands for.
pub struct RawHeaderView {
    pub name: Seq<char>,
    pub value: Seq<u8>,
}

impl View for RawHeader {
    type V = RawHeaderView;

    open spec fn view(&self) -> RawHeaderView {
        RawHeaderView { name: self.name@, value: self.value@ }
    }
}

/// A complete response head, before anything is made of it.
#[derive(Debug)]
pub struct RawResponse {
    pub header_len: usize,
    pub code: Option<u16>,
    pub headers: Vec<RawHeader>,
}

/// What a `RawResponse` stands for.
#[verifier::ext_equal]
pub struct RawResponseView {
    pub header_len: usize,
    pub code: Option<u16>,
    pub headers: Seq<RawHeaderView>,
}

impl View for RawResponse {
    type V = RawResponseView;

    open spec fn view(&self) -> RawResponseView {
        RawResponseView {
            header_len: self.header_len,
            code: self.code,
            headers: self.headers@.map_values(|h: RawHeader| h@),
        }
    }
}

/// What `httparse::Response::parse` makes of `buf` with room for `max_headers`
/// header fields: the head, `None` where it is not complete yet, or an error.
pub uninterp spec fn parsed_response(buf: Seq<u8>, max_headers: nat) -> Result<
    Option<RawResponseView>,
    httparse::Error,
>;

/// Calls `httparse::Response::parse` and copies what it found into plain values.
/// The outcome depends on the bytes and on the room for header fields alone. The
/// parser takes one byte after the other and stops behind the line feed of an empty
/// line, so a complete head ends with a line feed within the bytes; no shorter part of
/// it is complete or in error; and whatever follows it makes no difference.
#[verifier::external_body]
fn httparse_response(buf: &[u8], max_headers: usize) -> (parsed: Result<
    Option<RawResponse>,
    httparse::Error,
>)
    requires
        max_headers <= MAX_HEADERS,
    ensures
        match parsed {
            Ok(Some(raw)) => {
                &&& parsed_response(buf@, max_headers as nat) == Ok::<_, httparse::Error>(
                    Some(raw@),
                )
                &&& 0 < raw.header_len <= buf@.len()
                &&& buf@[raw.header_len - 1] == LINE_FEED
                &&& forall|n: int|
                    0 <= n < raw.header_len ==> #[trigger] parsed_response(
                        buf@.take(n),
                        max_headers as nat,
                    ) == Ok::<_, httparse::Error>(None::<RawResponseView>)
                &&& forall|rest: Seq<u8>| #[trigger]
                    parsed_response(
                        buf@.take(raw.header_len as int) + rest,
                        max_headers as nat,
                    ) == Ok::<_, httparse::Error>(Some(raw@))
            },
            Ok(None) => parsed_response(buf@, max_headers as nat) == Ok::<_, httparse::Error>(
                None::<RawResponseView>,
            ),
            Err(e) => parsed_response(buf@, max_headers as nat) == Err::<
                Option<RawResponseView>,
                _,
            >(e),
        },
{
    let mut room = vec![httparse::EMPTY_HEADER; max_headers];
    let mut resp = httparse::Response::new(&mut room);
    match resp.parse(buf)? {
        httparse::Status::Complete(header_len) => {
            let copied = resp.headers.iter().map(
                |h| RawHeader { name: h.name.to_string(), value: h.value.to_vec() },
            );
            Ok(Some(RawResponse { header_len, code: resp.code, headers: copied.collect() }))
        },
        httparse::Status::Partial => Ok(None),
    }
}

/// Calls `std::str::from_utf8`: the text that `bytes` are the UTF-8 encoding of,
/// if they are one.
#[verifier::external_body]
fn utf8_text(bytes: &[u8]) -> (text: Option<&str>)
    ensures
        text is Some <==> valid_utf8(bytes@),
        text matches Some(t) ==> t@ == decode_utf8(bytes@),
{
    std::str::from_utf8(bytes).ok()
}

/// What went wrong with a response.
#[derive(Debug)]
pub enum ResponseError {
    /// The bytes are no response head.
    Malformed(httparse::Error),
    /// The head has no status code.
    MissingStatusCode,
    /// The server answered with a status other than 200 and 206.
    Status(u16),
}

/// What the downloader keeps of a response head.
#[derive(Debug)]
pub struct HttpResponseHeader {
    pub status_code: u16,
    pub content_length: Option<u64>,
    pub header_len: usize,
}

/// The value of `h` as text, where it is text.
pub open spec fn header_text(h: RawHeaderView) -> Option<Seq<char>> {
    if valid_utf8(h.value) {
        Some(decode_utf8(h.value))
    } else {
        None
    }
}

/// The length that `h` states, where `h` is a usable `Content-Length`.
pub open spec fn stated_length(h: RawHeaderView) -> Option<u64> {
    match header_text(h) {
        Some(text) if same_ignoring_ascii_case(h.name, "Content-Length"@) => u64_of(trim(text)),
        _ => None,
    }
}

/// The number behind the first slash of `text`, white space around it aside.
pub open spec fn number_after_slash(text: Seq<char>) -> Option<u64> {
    match text.index_of_first('/') {
        Some(slash) => u64_of(trim(text.skip(slash + 1))),
        None => None,
    }
}

/// The full size that `h` states, where `h` is a usable `Content-Range`.
pub open spec fn stated_total(h: RawHeaderView) -> Option<u64> {
    match header_text(h) {
        Some(text) if same_ignoring_ascii_case(h.name, "Content-Range"@) => number_after_slash(
            text,
        ),
        _ => None,
    }
}

/// The length that the first usable `Content-Length` states.
pub open spec fn first_length(headers: Seq<RawHeaderView>) -> Option<u64>
    decreases headers.len(),
{
    if headers.len() == 0 {
        None
    } else {
        match first_length(headers.drop_last()) {
            Some(n) => Some(n),
            None => stated_length(headers.last()),
        }
    }
}

/// The full size that the last usable `Content-Range` states.
pub open spec fn last_total(headers: Seq<RawHeaderView>) -> Option<u64>
    decreases headers.len(),
{
    if headers.len() == 0 {
        None
    } else {
        match stated_total(headers.last()) {
            Some(n) => Some(n),
            None => last_total(headers.drop_last()),
        }
    }
}

/// The size of the whole resource: what the last usable `Content-Range` says of
/// it, or else what the first usable `Content-Length` says.
pub open spec fn resource_size(headers: Seq<RawHeaderView>) -> Option<u64> {
    match last_total(headers) {
        Some(n) => Some(n),
        None => first_length(headers),
    }
}

/// What a complete head amounts to.
pub open spec fn interpreted(raw: RawResponseView) -> Result<HttpResponseHeader, ResponseError> {
    match raw.code {
        None => Err(ResponseError::MissingStatusCode),
        Some(code) => if code == 200 || code == 206 {
            Ok(
                HttpResponseHeader {
                    status_code: code,
                    content_length: resource_size(raw.headers),
                    header_len: raw.header_len,
                },
            )
        } else {
            Err(ResponseError::Status(code))
        },
    }
}

/// What the bytes `buf`, the start of a response, amount to: the head, `None`
/// where more bytes are needed, or an error.
pub open spec fn response_header(buf: Seq<u8>) -> Result<
    Option<HttpResponseHeader>,
    ResponseError,
> {
    match parsed_response(buf, MAX_HEADERS as nat) {
        Err(e) => Err(ResponseError::Malformed(e)),
        Ok(None) => Ok(None),
        Ok(Some(raw)) => match interpreted(raw) {
            Ok(header) => Ok(Some(header)),
            Err(e) => Err(e),
        },
    }
}

/// Whether the head of an answer that consists of `head` and `body` is found where it
/// is, however much of the answer has been received: nothing is found before all of
/// the head is there, and from there on just the head.
pub open spec fn recognised(head: Seq<u8>, body: Seq<u8>) -> bool {
    forall|k: int|
        #![trigger (head + body).take(k)]
        0 <= k <= head.len() + body.len() ==> match response_header((head + body).take(k)) {
            Err(_) => false,
            Ok(None) => k < head.len(),
            Ok(Some(h)) => head.len() <= k && h.header_len == head.len(),
        }
}

/// The number that a `Content-Length` value states.
fn length_value(value: &Vec<u8>) -> (n: Option<u64>)
    ensures
        n == (if valid_utf8(value@) {
            u64_of(trim(decode_utf8(value@)))
        } else {
            None
        }),
{
    match utf8_text(value.as_slice()) {
        Some(text) => {
            let chars = to_chars(text);
            assert(chars@.skip(0) == chars@);
            parse_trimmed_u64(&chars, 0)
        },
        None => None,
    }
}

/// The full size that a `Content-Range` value states, as in `bytes 0-0/1000`.
fn range_total(value: &Vec<u8>) -> (n: Option<u64>)
    ensures
        n == (if valid_utf8(value@) {
            number_after_slash(decode_utf8(value@))
        } else {
            None
        }),
{
    match utf8_text(value.as_slice()) {
        Some(text) => {
            let chars = to_chars(text);
            match find(&chars, '/') {
                Some(slash) => parse_trimmed_u64(&chars, slash + 1),
                None => None,
            }
        },
        None => None,
    }
}

/// Makes of a complete head what the downloader needs of it.
pub fn interpret_response(raw: &RawResponse) -> (header: Result<HttpResponseHeader, ResponseError>)
    ensures
        header == interpreted(raw@),
{
    let status_code = match raw.code {
        Some(code) => code,
        None => return Err(ResponseError::MissingStatusCode),
    };
    if status_code != 200 && status_code != 206 {
        return Err(ResponseError::Status(status_code));
    }
    let mut content_length: Option<u64> = None;
    let mut i: usize = 0;
    assert(raw@.headers.take(0) == Seq::<RawHeaderView>::empty());
    while i < raw.headers.len()
        invariant
            i <= raw.headers.len(),
            content_length == resource_size(raw@.headers.take(i as int)),
        decreases raw.headers.len() - i,
    {
        let header = &raw.headers[i];
        proof {
            assert(raw@.headers.take(i + 1).drop_last() == raw@.headers.take(i as int));
            assert(raw@.headers.take(i + 1).last() == header@);
        }
        if eq_ignore_ascii_case(header.name.as_str(), "Content-Length") {
            if content_length.is_none() {
                content_length = length_value(&header.value);
            }
        }
        if eq_ignore_ascii_case(header.name.as_str(), "Content-Range") {
            if let Some(total) = range_total(&header.value) {
                content_length = Some(total);
            }
        }
        i += 1;
    }
    assert(raw@.headers.take(i as int) == raw@.headers);
    Ok(HttpResponseHeader { status_code, content_length, header_len: raw.header_len })
}

/// Reads the head of a response from `buf`, the bytes received so far. A head that is
/// found ends with a line feed; it is found neither in fewer bytes, which are no error
/// either, nor otherwise in more.
pub fn parse_http_response_header(buf: &[u8]) -> (header: Result<
    Option<HttpResponseHeader>,
    ResponseError,
>)
    ensures
        header == response_header(buf@),
        header matches Ok(Some(h)) ==> {
            &&& 0 < h.header_len <= buf@.len()
            &&& buf@[h.header_len - 1] == LINE_FEED
            &&& forall|n: int|
                0 <= n < h.header_len ==> #[trigger] response_header(buf@.take(n)) == Ok::<
                    _,
                    ResponseError,
                >(None::<HttpResponseHeader>)
            &&& forall|rest: Seq<u8>| #[trigger]
                response_header(buf@.take(h.header_len as int) + rest) == header
            &&& forall|body: Seq<u8>| #[trigger]
                recognised(buf@.take(h.header_len as int), body)
        },
{
    match httparse_response(buf, MAX_HEADERS) {
        Err(e) => Err(ResponseError::Malformed(e)),
        Ok(None) => Ok(None),
        Ok(Some(raw)) => match interpret_response(&raw) {
            Ok(header) => {
                proof {
                    let head = buf@.take(raw.header_len as int);
                    let found = Ok::<_, ResponseError>(Some(header));
                    assert forall|n: int| 0 <= n < raw.header_len implies #[trigger] response_header(
                        buf@.take(n),
                    ) == Ok::<_, ResponseError>(None::<HttpResponseHeader>) by {
                        assert(parsed_response(buf@.take(n), MAX_HEADERS as nat) is Ok);
                    }
                    assert forall|rest: Seq<u8>| #[trigger]
                        response_header(head + rest) == found by {
                        assert(parsed_response(head + rest, MAX_HEADERS as nat) is Ok);
                    }
                    assert forall|body: Seq<u8>| #[trigger] recognised(head, body) by {
                        assert forall|k: int|
                            #![trigger (head + body).take(k)]
                            0 <= k <= head.len() + body.len() implies match response_header(
                            (head + body).take(k),
                        ) {
                            Err(_) => false,
                            Ok(None) => k < head.len(),
                            Ok(Some(h)) => head.len() <= k && h.header_len == head.len(),
                        } by {
                            if k < head.len() {
                                assert((head + body).take(k) =~= buf@.take(k));
                            } else {
                                assert((head + body).take(k) =~= head + body.take(k - head.len()));
                            }
                        }
                    }
                }
                Ok(Some(header))
            },
            Err(e) => Err(e),
        },
    }
}

/// Why the size of a resource is not known.
#[derive(Debug)]
pub enum FileSizeError {
    /// The server's answer is of no use.
    Response(ResponseError),
    /// The answer states no size, or is not complete.
    MissingLength,
}

/// The size of the resource that an answer, read with the result `parsed`, states.
pub open spec fn stated_size(parsed: Result<Option<HttpResponseHeader>, ResponseError>) -> Result<
    u64,
    FileSizeError,
> {
    match parsed {
        Err(e) => Err(FileSizeError::Response(e)),
        Ok(Some(header)) => match header.content_length {
            Some(n) => Ok(n),
            None => Err(FileSizeError::MissingLength),
        },
        Ok(None) => Err(FileSizeError::MissingLength),
    }
}

/// The size of the resource that an answer states.
pub fn size_from_header(parsed: Result<Option<HttpResponseHeader>, ResponseError>) -> (size: Result<
    u64,
    FileSizeError,
>)
    ensures
        size == stated_size(parsed),
{
    match parsed {
        Err(e) => Err(FileSizeError::Response(e)),
        Ok(Some(header)) => match header.content_length {
            Some(n) => Ok(n),
            None => Err(FileSizeError::MissingLength),
        },
        Ok(None) => Err(FileSizeError::MissingLength),
    }
}

/// The size of the resource that the answer to a probe, of which `buf` is the
/// start, states.
pub fn size_from_response(buf: &[u8]) -> (size: Result<u64, FileSizeError>)
    ensures
        size == stated_size(response_header(buf@)),
{
    size_from_header(parse_http_response_header(buf))
}

/// Where an answer has a usable `Content-Range`, no `Content-Length` changes the
/// size that is read from it.
pub proof fn law_content_range_prevails(headers: Seq<RawHeaderView>, i: int)
    requires
        0 <= i < headers.len(),
        stated_total(headers[i]) is Some,
    ensures
        last_total(headers) is Some,
        resource_size(headers) == last_total(headers),
    decreases headers.len(),
{
    if i < headers.len() - 1 {
        assert(headers.drop_last()[i] == headers[i]);
        law_content_range_prevails(headers.drop_last(), i);
    }
}

/// Whether `h` is a field of the given name, up to case, with the given text.
pub open spec fn reads(h: RawHeaderView, name: Seq<char>, text: Seq<char>) -> bool {
    same_ignoring_ascii_case(h.name, name) && valid_utf8(h.value) && decode_utf8(h.value) == text
}

/// Whether `h` is a `Content-Length` of `n` bytes.
pub open spec fn says_length(h: RawHeaderView, n: u64) -> bool {
    reads(h, "Content-Length"@, decode_utf8(h.value)) && u64_of(trim(decode_utf8(h.value))) == Some(
        n,
    )
}

/// Whether `h` is a `Content-Range` of a resource of `n` bytes: `n` stands behind the
/// slash that comes first.
pub open spec fn says_total(h: RawHeaderView, n: u64) -> bool {
    let text = decode_utf8(h.value);
    &&& reads(h, "Content-Range"@, text)
    &&& exists|k: int|
        0 <= k < text.len() && #[trigger] text[k] == '/' && (forall|j: int|
            0 <= j < k ==> #[trigger] text[j] != '/') && u64_of(trim(text.skip(k + 1))) == Some(n)
}

/// Whether `h` is no usable `Content-Length`.
pub open spec fn says_no_length(h: RawHeaderView) -> bool {
    forall|n: u64| !says_length(h, n)
}

/// Whether `h` is no usable `Content-Range`.
pub open spec fn says_no_total(h: RawHeaderView) -> bool {
    forall|n: u64| !says_total(h, n)
}

proof fn lemma_says_length(h: RawHeaderView)
    ensures
        forall|n: u64| says_length(h, n) <==> stated_length(h) == Some(n),
        says_no_length(h) <==> stated_length(h) is None,
{
    if let Some(n) = stated_length(h) {
        assert(says_length(h, n));
    }
}

proof fn lemma_says_total(h: RawHeaderView)
    ensures
        forall|n: u64| says_total(h, n) <==> stated_total(h) == Some(n),
        says_no_total(h) <==> stated_total(h) is None,
{
    let text = decode_utf8(h.value);
    text.index_of_first_ensures('/');
    assert forall|n: u64| says_total(h, n) <==> stated_total(h) == Some(n) by {
        if stated_total(h) == Some(n) {
            let k = text.index_of_first('/')->Some_0;
            assert(text[k] == '/');
        }
        if says_total(h, n) {
            let k = choose|k: int|
                0 <= k < text.len() && #[trigger] text[k] == '/' && (forall|j: int|
                    0 <= j < k ==> #[trigger] text[j] != '/') && u64_of(trim(text.skip(k + 1)))
                    == Some(n);
            assert(text.contains('/'));
            let first = text.index_of_first('/')->Some_0;
            assert(text[first] == '/' && text[k] == '/');
        }
    }
    if let Some(n) = stated_total(h) {
        assert(says_total(h, n));
    }
}

proof fn lemma_last_total(headers: Seq<RawHeaderView>, i: int)
    requires
        0 <= i < headers.len(),
        stated_total(headers[i]) is Some,
        forall|j: int| i < j < headers.len() ==> stated_total(#[trigger] headers[j]) is None,
    ensures
        last_total(headers) == stated_total(headers[i]),
    decreases headers.len(),
{
    if i < headers.len() - 1 {
        let rest = headers.drop_last();
        assert(stated_total(headers[headers.len() - 1]) is None);
        assert(rest[i] == headers[i]);
        assert forall|j: int| i < j < rest.len() implies stated_total(
            #[trigger] rest[j],
        ) is None by {
            assert(rest[j] == headers[j]);
        }
        lemma_last_total(rest, i);
    }
}

proof fn lemma_no_total(headers: Seq<RawHeaderView>)
    requires
        forall|j: int| 0 <= j < headers.len() ==> stated_total(#[trigger] headers[j]) is None,
    ensures
        last_total(headers) is None,
    decreases headers.len(),
{
    if headers.len() > 0 {
        let rest = headers.drop_last();
        assert(stated_total(headers[headers.len() - 1]) is None);
        assert forall|j: int| 0 <= j < rest.len() implies stated_total(
            #[trigger] rest[j],
        ) is None by {
            assert(rest[j] == headers[j]);
        }
        lemma_no_total(rest);
    }
}

proof fn lemma_no_length(headers: Seq<RawHeaderView>)
    requires
        forall|j: int| 0 <= j < headers.len() ==> stated_length(#[trigger] headers[j]) is None,
    ensures
        first_length(headers) is None,
    decreases headers.len(),
{
    if headers.len() > 0 {
        let rest = headers.drop_last();
        assert(stated_length(headers[headers.len() - 1]) is None);
        assert forall|j: int| 0 <= j < rest.len() implies stated_length(
            #[trigger] rest[j],
        ) is None by {
            assert(rest[j] == headers[j]);
        }
        lemma_no_length(rest);
    }
}

proof fn lemma_first_length(headers: Seq<RawHeaderView>, i: int)
    requires
        0 <= i < headers.len(),
        stated_length(headers[i]) is Some,
        forall|j: int| 0 <= j < i ==> stated_length(#[trigger] headers[j]) is None,
    ensures
        first_length(headers) == stated_length(headers[i]),
    decreases headers.len(),
{
    let rest = headers.drop_last();
    assert forall|j: int| 0 <= j < i implies stated_length(#[trigger] rest[j]) is None by {
        assert(rest[j] == headers[j]);
    }
    if i < headers.len() - 1 {
        assert(rest[i] == headers[i]);
        lemma_first_length(rest, i);
    } else {
        lemma_no_length(rest);
    }
}

/// The size of the resource is read from all fields of an accepted head, wherever they
/// stand: it is what the last usable `Content-Range` states, whichever field that is.
pub proof fn law_size_from_content_range(raw: RawResponseView, i: int, n: u64)
    requires
        raw.code == Some(200u16) || raw.code == Some(206u16),
        0 <= i < raw.headers.len(),
        says_total(raw.headers[i], n),
        forall|j: int| i < j < raw.headers.len() ==> says_no_total(#[trigger] raw.headers[j]),
    ensures
        interpreted(raw) matches Ok(header) && header.content_length == Some(n),
{
    lemma_says_total(raw.headers[i]);
    assert forall|j: int| i < j < raw.headers.len() implies stated_total(
        #[trigger] raw.headers[j],
    ) is None by {
        lemma_says_total(raw.headers[j]);
    }
    lemma_last_total(raw.headers, i);
}

/// Where no field of an accepted head is a usable `Content-Range`, the size is what the
/// first usable `Content-Length` states, whichever field that is.
pub proof fn law_size_from_content_length(raw: RawResponseView, i: int, n: u64)
    requires
        raw.code == Some(200u16) || raw.code == Some(206u16),
        0 <= i < raw.headers.len(),
        says_length(raw.headers[i], n),
        forall|j: int| 0 <= j < i ==> says_no_length(#[trigger] raw.headers[j]),
        forall|j: int| 0 <= j < raw.headers.len() ==> says_no_total(#[trigger] raw.headers[j]),
    ensures
        interpreted(raw) matches Ok(header) && header.content_length == Some(n),
{
    lemma_says_length(raw.headers[i]);
    assert forall|j: int| 0 <= j < i implies stated_length(#[trigger] raw.headers[j]) is None by {
        lemma_says_length(raw.headers[j]);
    }
    assert forall|j: int| 0 <= j < raw.headers.len() implies stated_total(
        #[trigger] raw.headers[j],
    ) is None by {
        lemma_says_total(raw.headers[j]);
    }
    lemma_no_total(raw.headers);
    lemma_first_length(raw.headers, i);
}

/// An accepted head states no size only if none of its fields does.
pub proof fn law_no_size(raw: RawResponseView)
    requires
        raw.code == Some(200u16) || raw.code == Some(206u16),
    ensures
        interpreted(raw) matches Ok(header) && (header.content_length is None <==> forall|j: int|
            0 <= j < raw.headers.len() ==> says_no_total(#[trigger] raw.headers[j])
                && says_no_length(raw.headers[j])),
{
    let headers = raw.headers;
    if forall|j: int|
        0 <= j < headers.len() ==> says_no_total(#[trigger] headers[j]) && says_no_length(
            headers[j],
        ) {
        assert forall|j: int| 0 <= j < headers.len() implies stated_total(
            #[trigger] headers[j],
        ) is None && stated_length(headers[j]) is None by {
            lemma_says_total(headers[j]);
            lemma_says_length(headers[j]);
        }
        lemma_no_total(headers);
        lemma_no_length(headers);
    } else {
        let j = choose|j: int|
            0 <= j < headers.len() && !(says_no_total(#[trigger] headers[j]) && says_no_length(
                headers[j],
            ));
        lemma_says_total(headers[j]);
        lemma_says_length(headers[j]);
        lemma_some_size(headers, j);
    }
}

proof fn lemma_some_size(headers: Seq<RawHeaderView>, i: int)
    requires
        0 <= i < headers.len(),
        stated_total(headers[i]) is Some || stated_length(headers[i]) is Some,
    ensures
        last_total(headers) is Some || first_length(headers) is Some,
    decreases headers.len(),
{
    if i < headers.len() - 1 {
        assert(headers.drop_last()[i] == headers[i]);
        lemma_some_size(headers.drop_last(), i);
    }
}

/// A field `Content-Range` says the number behind its first slash, whatever the range
/// before it, and a field `Content-Length` says its number, in either case with or
/// without white space around the number.
pub proof fn law_stated_numbers(
    h: RawHeaderView,
    range: Seq<char>,
    before: Seq<char>,
    n: u64,
    behind: Seq<char>,
)
    requires
        !range.contains('/'),
        blank(before),
        blank(behind),
    ensures
        reads(h, "Content-Range"@, range + seq!['/'] + (before + decimal(n as nat) + behind))
            ==> says_total(h, n),
        reads(h, "Content-Length"@, before + decimal(n as nat) + behind) ==> says_length(h, n),
{
    let number = decimal(n as nat);
    lemma_decimal_digits(n as nat);
    law_number_reading(number, n as nat);
    assert(!is_white_space(number[0]));
    assert(!is_white_space(number[number.len() - 1]));
    law_trim(before, number, behind);
    let text = range + seq!['/'] + (before + number + behind);
    if reads(h, "Content-Range"@, text) {
        let k = range.len() as int;
        assert(text[k] == '/');
        assert forall|j: int| 0 <= j < k implies #[trigger] text[j] != '/' by {
            assert(text[j] == range[j]);
        }
        assert(text.skip(k + 1) =~= before + number + behind);
    }
}

/// A complete head is accepted exactly if its status is 200 or 206; it then keeps its
/// status and its length. Any other status is the error, and so is a missing one.
pub proof fn law_status(raw: RawResponseView)
    ensures
        match raw.code {
            Some(code) => if code == 200 || code == 206 {
                interpreted(raw) matches Ok(header) && header.status_code == code
                    && header.header_len == raw.header_len
            } else {
                interpreted(raw) == Err::<HttpResponseHeader, _>(ResponseError::Status(code))
            },
            None => interpreted(raw) == Err::<HttpResponseHeader, _>(
                ResponseError::MissingStatusCode,
            ),
        },
{
}

/// Bytes are searched for a head with room for 64 fields. Bytes that are no head are the
/// parser's error, an incomplete head is none yet, and of a complete one the status, the
/// length and the size are kept or its error is given.
pub proof fn law_response(buf: Seq<u8>)
    ensures
        match parsed_response(buf, 64) {
            Err(e) => response_header(buf) == Err::<Option<HttpResponseHeader>, _>(
                ResponseError::Malformed(e),
            ),
            Ok(None) => response_header(buf) == Ok::<_, ResponseError>(None::<HttpResponseHeader>),
            Ok(Some(raw)) => match response_header(buf) {
                Ok(header) => header is Some && interpreted(raw) == Ok::<_, ResponseError>(
                    header->Some_0,
                ),
                Err(e) => interpreted(raw) == Err::<HttpResponseHeader, _>(e),
            },
        },
{
}

/// The size of the resource is known exactly if a complete and accepted head states it; it
/// is then what the head states, and otherwise the head's error is passed on or the size is
/// missing.
pub proof fn law_size_known(parsed: Result<Option<HttpResponseHeader>, ResponseError>, n: u64)
    ensures
        stated_size(parsed) == Ok::<_, FileSizeError>(n) <==> (parsed matches Ok(Some(header))
            && header.content_length == Some(n)),
        stated_size(parsed) matches Err(FileSizeError::Response(e)) ==> parsed matches Err(f) && e
            == f,
        stated_size(parsed) == Err::<u64, _>(FileSizeError::MissingLength) <==> (parsed matches Ok(
            header,
        ) && (header matches Some(h) ==> h.content_length is None)),
{
}

/// What stands for a head says of each part what the part is.
pub proof fn law_head_view(raw: RawResponse)
    ensures
        raw@.header_len == raw.header_len,
        raw@.code == raw.code,
        raw@.headers.len() == raw.headers@.len(),
        forall|i: int|
            0 <= i < raw.headers@.len() ==> (#[trigger] raw@.headers[i]).name
                == raw.headers@[i].name@ && raw@.headers[i].value == raw.headers@[i].value@,
{
}

} // verus!
