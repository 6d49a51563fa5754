//! The HTTP plumbing of the app: methods, status codes, responses, and the
//! parsing of request heads. All the app needs is to tell requests apart by
//! path and method and to read their bodies.
use vstd::prelude::*;
use vstd::string::*;
use vstd::utf8::*;

use crate::text::{
    chars_of, decimal, decimal_string, find_char, find_from, owned, push_char, push_decimal,
    signed_decimal, utf8_bytes,
};

verus! {

/// The most bytes that a request head may take.
pub const MAX_HEADER_BYTES: usize = 64 * 1024;

/// The largest request body accepted.
pub const MAX_BODY_BYTES: usize = 1024 * 1024;

/// A request as the handlers see it.
pub struct Request {
    pub method: Method,
    pub path: String,
    pub body: Vec<u8>,
}

/// An HTTP method.
#[derive(Clone, Copy, Hash, PartialEq, Eq, Structural)]
pub enum Method {
    Get,
    Post,
}

/// The name of a method on the wire.
pub open spec fn method_name(m: Method) -> Seq<char> {
    match m {
        Method::Get => "GET"@,
        Method::Post => "POST"@,
    }
}

/// The method with the given name, if any; names are case-sensitive.
pub open spec fn method_named(s: Seq<char>) -> Option<Method> {
    if s == "GET"@ {
        Some(Method::Get)
    } else if s == "POST"@ {
        Some(Method::Post)
    } else {
        None
    }
}

impl Method {
    /// The method with the given name (its `FromStr`).
    pub fn parse(s: &str) -> (r: Result<Method, String>)
        ensures
            match method_named(s@) {
                Some(m) => r == Ok::<Method, String>(m),
                None => r matches Err(e) && e@ == "unrecognized method: "@ + s@,
            },
    {
        let name = owned(s);
        if name == owned("GET") {
            Ok(Method::Get)
        } else if name == owned("POST") {
            Ok(Method::Post)
        } else {
            let mut e = owned("unrecognized method: ");
            e.append(s);
            Err(e)
        }
    }

    /// The name of the method on the wire (its `Display`).
    pub fn as_str(&self) -> (r: &'static str)
        ensures
            r@ == method_name(*self),
    {
        match self {
            Method::Get => "GET",
            Method::Post => "POST",
        }
    }
}

impl core::str::FromStr for Method {
    type Err = String;

    fn from_str(s: &str) -> (r: Result<Method, String>)
        ensures
            match method_named(s@) {
                Some(m) => r == Ok::<Method, String>(m),
                None => r matches Err(e) && e@ == "unrecognized method: "@ + s@,
            },
    {
        Method::parse(s)
    }
}

/// An HTTP status code.
#[derive(Clone, Copy, PartialEq, Eq, Structural)]
pub struct StatusCode(i16);

impl View for StatusCode {
    type V = i16;

    closed spec fn view(&self) -> i16 {
        self.0
    }
}

/// How a status code is written in a status line: the known codes with
/// their reason phrase, any other as its number.
pub open spec fn status_text(code: i16) -> Seq<char> {
    if code == 200 {
        "200 OK"@
    } else if code == 400 {
        "400 Bad Request"@
    } else if code == 404 {
        "404 Not Found"@
    } else if code == 500 {
        "500 Internal Server Error"@
    } else if code == 405 {
        "405 Method Not Allowed"@
    } else {
        signed_decimal(code as int)
    }
}

impl StatusCode {
    /// 200 OK: the request succeeded.
    pub fn ok() -> (c: StatusCode)
        ensures
            c@ == 200,
    {
        StatusCode(200)
    }

    /// 400 Bad Request: the server cannot or will not process the request
    /// because of something perceived as a client error.
    pub fn bad_request() -> (c: StatusCode)
        ensures
            c@ == 400,
    {
        StatusCode(400)
    }

    /// 404 Not Found: the server cannot find the requested resource.
    pub fn not_found() -> (c: StatusCode)
        ensures
            c@ == 404,
    {
        StatusCode(404)
    }

    /// 500 Internal Server Error: the server met a situation it does not
    /// know how to handle.
    pub fn internal_server_error() -> (c: StatusCode)
        ensures
            c@ == 500,
    {
        StatusCode(500)
    }

    /// 405 Method Not Allowed: the method is known but the resource does not
    /// support it.
    pub fn method_not_allowed() -> (c: StatusCode)
        ensures
            c@ == 405,
    {
        StatusCode(405)
    }

    /// The status as written in a status line (its `Display`).
    pub fn text(&self) -> (t: String)
        ensures
            t@ == status_text(self@),
    {
        let code = self.0;
        if code == 200 {
            owned("200 OK")
        } else if code == 400 {
            owned("400 Bad Request")
        } else if code == 404 {
            owned("404 Not Found")
        } else if code == 500 {
            owned("500 Internal Server Error")
        } else if code == 405 {
            owned("405 Method Not Allowed")
        } else if code < 0 {
            let mut t = String::new();
            push_char(&mut t, '-');
            let magnitude: i32 = -(code as i32);
            push_decimal(&mut t, magnitude as u64);
            t
        } else {
            decimal_string(code as u64)
        }
    }
}

/// The headers of a response as a map: a later entry for a key replaces an
/// earlier one.
pub open spec fn header_map(h: Seq<(String, String)>) -> Map<Seq<char>, Seq<char>>
    decreases h.len(),
{
    if h.len() == 0 {
        Map::empty()
    } else {
        header_map(h.drop_last()).insert(h.last().0@, h.last().1@)
    }
}

/// A response returned from an HTTP endpoint.
pub struct Response {
    status: StatusCode,
    headers: Vec<(String, String)>,
    pub body: Option<Vec<u8>>,
}

/// The abstract value of a [`Response`].
pub struct ResponseView {
    pub status: i16,
    pub headers: Map<Seq<char>, Seq<char>>,
    pub body: Option<Seq<u8>>,
}

/// The abstract value of an optional body.
pub open spec fn body_view(b: Option<Vec<u8>>) -> Option<Seq<u8>> {
    match b {
        Some(v) => Some(v@),
        None => None,
    }
}

impl View for Response {
    type V = ResponseView;

    closed spec fn view(&self) -> ResponseView {
        ResponseView {
            status: self.status@,
            headers: header_map(self.headers@),
            body: body_view(self.body),
        }
    }
}

/// A response with the given status, no header and no body.
pub open spec fn bare_response(status: i16) -> ResponseView {
    ResponseView { status, headers: Map::empty(), body: None }
}

impl Response {
    /// A response with the given status code, to be completed with headers
    /// and a body.
    pub fn builder(status: StatusCode) -> (r: Self)
        ensures
            r@ == bare_response(status@),
    {
        Self { status, headers: Vec::new(), body: None }
    }

    /// The response with one more header; a header with the same key is
    /// replaced.
    pub fn header(self, key: String, value: String) -> (r: Self)
        ensures
            r@ == (ResponseView {
                status: self@.status,
                headers: self@.headers.insert(key@, value@),
                body: self@.body,
            }),
    {
        let Response { status, mut headers, body } = self;
        let ghost old_headers = headers@;
        headers.push((key, value));
        assert(headers@.drop_last() =~= old_headers);
        Response { status, headers, body }
    }

    /// The response with the given body.
    pub fn body(self, body: &[u8]) -> (r: Self)
        ensures
            r@ == (ResponseView { status: self@.status, headers: self@.headers, body: Some(body@) }),
    {
        let bytes = crate::text::bytes_to_vec(body);
        Self { status: self.status, headers: self.headers, body: Some(bytes) }
    }

    /// The value of the header `key`, if the response has one.
    pub fn header_value(&self, key: &str) -> (r: Option<String>)
        ensures
            match r {
                Some(v) => self@.headers.contains_key(key@) && v@ == self@.headers[key@],
                None => !self@.headers.contains_key(key@),
            },
    {
        let k = owned(key);
        let mut i = self.headers.len();
        while i > 0
            invariant
                i <= self.headers@.len(),
                k@ == key@,
                forall|j: int| i <= j < self.headers@.len() ==> #[trigger] self.headers@[j].0@ != k@,
            decreases i,
        {
            if self.headers[i - 1].0 == k {
                proof {
                    lemma_header_map_suffix(self.headers@, i as int, k@);
                }
                return Some(self.headers[i - 1].1.clone());
            }
            i = i - 1;
        }
        proof {
            lemma_header_map_suffix(self.headers@, 0, k@);
            lemma_header_map_empty_prefix(self.headers@, k@);
        }
        None
    }

    /// The status line and headers that precede the body on the wire.
    pub fn head_text(&self) -> (t: String)
        ensures
            t@ == response_head(self@),
    {
        let content_type = match self.header_value("Content-Type") {
            Some(v) => v,
            None => owned("application/octet-stream"),
        };
        let length: usize = match &self.body {
            Some(b) => b.len(),
            None => 0,
        };
        let mut t = owned("HTTP/1.1 ");
        let status = self.status.text();
        t.append(status.as_str());
        t.append("\r\nContent-Type: ");
        t.append(content_type.as_str());
        t.append("\r\nContent-Length: ");
        push_decimal(&mut t, length as u64);
        t.append("\r\nConnection: close\r\n\r\n");
        t
    }
}

proof fn lemma_header_map_suffix(h: Seq<(String, String)>, i: int, k: Seq<char>)
    requires
        0 <= i <= h.len(),
        forall|j: int| i <= j < h.len() ==> #[trigger] h[j].0@ != k,
    ensures
        header_map(h).contains_key(k) == header_map(h.take(i)).contains_key(k),
        header_map(h).contains_key(k) ==> header_map(h)[k] == header_map(h.take(i))[k],
    decreases h.len() - i,
{
    if i < h.len() {
        lemma_header_map_suffix(h.drop_last(), i, k);
        assert(h.drop_last().take(i) =~= h.take(i));
    } else {
        assert(h.take(i) =~= h);
    }
}

proof fn lemma_header_map_empty_prefix(h: Seq<(String, String)>, k: Seq<char>)
    ensures
        !header_map(h.take(0)).contains_key(k),
{
    assert(h.take(0) =~= Seq::<(String, String)>::empty());
}

/// The status line and headers written before a response body: the content
/// type defaults to `application/octet-stream` and the length counts the
/// body bytes.
pub open spec fn response_head(v: ResponseView) -> Seq<char> {
    let content_type = if v.headers.contains_key("Content-Type"@) {
        v.headers["Content-Type"@]
    } else {
        "application/octet-stream"@
    };
    let length: nat = match v.body {
        Some(b) => b.len(),
        None => 0,
    };
    "HTTP/1.1 "@ + status_text(v.status) + "\r\nContent-Type: "@ + content_type
        + "\r\nContent-Length: "@ + decimal(length) + "\r\nConnection: close\r\n\r\n"@
}

/// A response that reports that the server met an error, with the message
/// as body.
pub fn internal_server_error(msg: String) -> (r: Response)
    ensures
        r@ == (ResponseView { status: 500, headers: Map::empty(), body: Some(encode_utf8(msg@)) }),
{
    Response {
        status: StatusCode::internal_server_error(),
        headers: Vec::new(),
        body: Some(utf8_bytes(msg.as_str())),
    }
}

/// A 200 response that carries the given JSON text.
pub fn json(serialized: String) -> (r: Response)
    ensures
        r@ == (ResponseView {
            status: 200,
            headers: map!["Content-Type"@ => "application/json"@],
            body: Some(encode_utf8(serialized@)),
        }),
{
    let r = Response::builder(StatusCode(200)).header(
        owned("Content-Type"),
        owned("application/json"),
    );
    Response { status: r.status, headers: r.headers, body: Some(utf8_bytes(serialized.as_str())) }
}

/// An OK response (200) without body.
pub fn ok() -> (r: Response)
    ensures
        r@ == bare_response(200),
{
    Response { status: StatusCode::ok(), headers: Vec::new(), body: None }
}

/// A "Method Not Allowed" response (405).
pub fn method_not_allowed() -> (r: Response)
    ensures
        r@ == bare_response(405),
{
    Response { status: StatusCode::method_not_allowed(), headers: Vec::new(), body: None }
}

/// A "Not Found" response (404).
pub fn not_found() -> (r: Response)
    ensures
        r@ == bare_response(404),
{
    Response { status: StatusCode::not_found(), headers: Vec::new(), body: None }
}

/// The path of a request target without its query: what precedes the first
/// `?`.
pub fn normalize_path(raw_path: &str) -> (r: &str)
    ensures
        r@ == raw_path@.take(find_from(raw_path@, '?', 0)),
{
    let cs = chars_of(raw_path);
    let end = find_char(cs.as_slice(), '?', 0);
    proof {
        crate::text::lemma_find_from_bounds(cs@, '?', 0);
    }
    raw_path.substring_char(0, end)
}

} // verus!

verus! {

/// The four bytes that end a request head: an empty line.
pub open spec fn blank_line_at(buf: Seq<u8>, i: int) -> bool {
    &&& 0 <= i
    &&& i + 4 <= buf.len()
    &&& buf[i] == 13u8
    &&& buf[i + 1] == 10u8
    &&& buf[i + 2] == 13u8
    &&& buf[i + 3] == 10u8
}

/// Where the head of a buffered request ends: the first position of
/// `\r\n\r\n`, if there is one.
pub open spec fn header_end(buf: Seq<u8>) -> Option<int> {
    if exists|i: int| blank_line_at(buf, i) {
        Some(choose|i: int| blank_line_at(buf, i) && forall|j: int| 0 <= j < i ==> !blank_line_at(buf, j))
    } else {
        None
    }
}

/// The first position of `\r\n\r\n` in the buffer.
fn find_header_end(buf: &[u8]) -> (r: Option<usize>)
    ensures
        match r {
            Some(i) => blank_line_at(buf@, i as int) && forall|j: int|
                0 <= j < i ==> !blank_line_at(buf@, j),
            None => forall|j: int| !blank_line_at(buf@, j),
        },
{
    let mut i: usize = 0;
    while buf.len() >= 4 && i <= buf.len() - 4
        invariant
            forall|j: int| 0 <= j < i ==> !blank_line_at(buf@, j),
        decreases buf@.len() - i,
    {
        if buf[i] == 13 && buf[i + 1] == 10 && buf[i + 2] == 13 && buf[i + 3] == 10 {
            return Some(i);
        }
        i = i + 1;
    }
    None
}

/// How far reading the head of a request has come.
pub enum HeadScan {
    /// The head is complete; it ends where `\r\n\r\n` starts.
    Complete(usize),
    /// More bytes are needed.
    Incomplete,
    /// The head has grown beyond [`MAX_HEADER_BYTES`] without ending.
    TooLarge,
}

/// Looks at the bytes read so far from a connection and says whether the
/// head of the request is complete.
pub fn scan_request_head(buf: &[u8]) -> (r: HeadScan)
    ensures
        match r {
            HeadScan::Complete(i) => header_end(buf@) == Some(i as int),
            HeadScan::Incomplete => header_end(buf@) is None && buf@.len() <= MAX_HEADER_BYTES,
            HeadScan::TooLarge => header_end(buf@) is None && buf@.len() > MAX_HEADER_BYTES,
        },
{
    match find_header_end(buf) {
        Some(i) => {
            proof {
                lemma_header_end_is(buf@, i as int);
            }
            HeadScan::Complete(i)
        },
        None => {
            if buf.len() > MAX_HEADER_BYTES {
                HeadScan::TooLarge
            } else {
                HeadScan::Incomplete
            }
        },
    }
}

/// How many more body bytes to ask the connection for, when `have` of the
/// `content_length` bytes have arrived: at most 4096 at a time.
pub fn next_body_read(content_length: usize, have: usize) -> (n: usize)
    ensures
        n == if have >= content_length {
            0
        } else if content_length - have > 4096 {
            4096
        } else {
            content_length - have
        },
{
    let missing = if have >= content_length { 0 } else { content_length - have };
    if missing > 4096 { 4096 } else { missing }
}

} // verus!

verus! {

/// The first position at or after `i` where `\r\n` starts, or the length of
/// the text.
pub open spec fn find_crlf(s: Seq<char>, i: int) -> int
    decreases s.len() - i,
{
    if i < 0 {
        find_crlf(s, 0)
    } else if i + 1 >= s.len() {
        s.len() as int
    } else if s[i] == '\r' && s[i + 1] == '\n' {
        i
    } else {
        find_crlf(s, i + 1)
    }
}

/// The first position at or after `i` that holds whitespace, or the length
/// of the text.
pub open spec fn first_ws(s: Seq<char>, i: int) -> int
    decreases s.len() - i,
{
    if i < 0 {
        first_ws(s, 0)
    } else if i >= s.len() {
        s.len() as int
    } else if crate::text::is_whitespace(s[i]) {
        i
    } else {
        first_ws(s, i + 1)
    }
}

/// A character with ASCII upper-case letters mapped to lower case.
pub open spec fn ascii_lower(c: char) -> char {
    if 'A' <= c <= 'Z' {
        ((c as u32) + 32) as char
    } else {
        c
    }
}

/// `str::eq_ignore_ascii_case`.
pub open spec fn eq_ignore_ascii_case(a: Seq<char>, b: Seq<char>) -> bool {
    &&& a.len() == b.len()
    &&& forall|i: int| 0 <= i < a.len() ==> ascii_lower(#[trigger] a[i]) == ascii_lower(b[i])
}

/// Why a text is not a number of type `usize` (`core::num::IntErrorKind`).
#[derive(Clone, Copy, PartialEq, Eq, Structural)]
pub enum IntErrorKind {
    Empty,
    InvalidDigit,
    PosOverflow,
}

/// The message of a `ParseIntError` of the given kind.
pub open spec fn int_error_text(k: IntErrorKind) -> Seq<char> {
    match k {
        IntErrorKind::Empty => "cannot parse integer from empty string"@,
        IntErrorKind::InvalidDigit => "invalid digit found in string"@,
        IntErrorKind::PosOverflow => "number too large to fit in target type"@,
    }
}

/// The value of the decimal digits `d` appended to `acc`, read left to right:
/// the first character that is not a digit, or the first digit that makes
/// the value exceed `usize::MAX`, is the error.
pub open spec fn accumulate_digits(d: Seq<char>, acc: nat) -> Result<nat, IntErrorKind>
    decreases d.len(),
{
    if d.len() == 0 {
        Ok(acc)
    } else if !('0' <= d[0] <= '9') {
        Err(IntErrorKind::InvalidDigit)
    } else {
        let v = acc * 10 + (d[0] as u32 - '0' as u32);
        if v > usize::MAX {
            Err(IntErrorKind::PosOverflow)
        } else {
            accumulate_digits(d.drop_first(), v as nat)
        }
    }
}

/// `s.parse::<usize>()`: decimal digits with an optional leading `+`.
pub open spec fn parse_usize(s: Seq<char>) -> Result<usize, IntErrorKind> {
    if s.len() == 0 {
        Err(IntErrorKind::Empty)
    } else if (s[0] == '+' || s[0] == '-') && s.len() == 1 {
        Err(IntErrorKind::InvalidDigit)
    } else {
        let d = if s[0] == '+' { s.drop_first() } else { s };
        match accumulate_digits(d, 0) {
            Ok(n) => Ok(n as usize),
            Err(e) => Err(e),
        }
    }
}

/// The content length after reading one header line: unchanged unless the
/// line is a `Content-Length` header (any case), whose value must be a
/// number no larger than [`MAX_BODY_BYTES`].
pub open spec fn header_content_length(line: Seq<char>, cl: usize) -> Result<usize, HeadErrorView> {
    let colon = find_from(line, ':', 0);
    if colon >= line.len() || colon < 0 {
        Ok(cl)
    } else if !eq_ignore_ascii_case(line.take(colon), "content-length"@) {
        Ok(cl)
    } else {
        match parse_usize(crate::text::trim_ws(line.skip(colon + 1))) {
            Err(k) => Err(("couldn't parse content-length"@, Some(int_error_text(k)))),
            Ok(n) => if n > MAX_BODY_BYTES {
                Err(("request body too large"@, None))
            } else {
                Ok(n)
            },
        }
    }
}

/// The content length given by the header lines of `text` from position
/// `pos` on (lines end with `\r\n`; the last one at the end of the text),
/// starting from `cl`.
pub open spec fn content_length_from(text: Seq<char>, pos: int, cl: usize) -> Result<
    usize,
    HeadErrorView,
>
    decreases text.len() - pos,
{
    if pos < 0 || pos > text.len() {
        Ok(cl)
    } else {
        let end = find_crlf(text, pos);
        match header_content_length(text.subrange(pos, end), cl) {
            Err(e) => Err(e),
            Ok(c) => if pos <= end && end + 1 < text.len() {
                content_length_from(text, end + 2, c)
            } else {
                Ok(c)
            },
        }
    }
}

/// What a request head says: its method, path and body length.
pub struct HeadView {
    pub method: Method,
    pub path: Seq<char>,
    pub content_length: usize,
}

/// The meaning of the text of a request head: the method and path are the
/// first two whitespace-separated words of the first line, the body length
/// comes from the `Content-Length` header lines (0 when there is none).
pub open spec fn parse_head_text(text: Seq<char>) -> Result<HeadView, HeadErrorView> {
    let line_end = find_crlf(text, 0);
    let line = text.take(line_end);
    let a0 = crate::text::first_non_ws(line, 0);
    if a0 >= line.len() {
        Err(("request is missing a method"@, None))
    } else {
        let e0 = first_ws(line, a0);
        let m = line.subrange(a0, e0);
        if m != "GET"@ && m != "POST"@ {
            Err(("invalid request method: "@ + m, Some("unrecognized method: "@ + m)))
        } else {
            let a1 = crate::text::first_non_ws(line, e0);
            if a1 >= line.len() {
                Err(("request is missing a path"@, None))
            } else {
                let path = line.subrange(a1, first_ws(line, a1));
                let method = if m == "GET"@ { Method::Get } else { Method::Post };
                let lengths = if line_end < text.len() {
                    content_length_from(text, line_end + 2, 0)
                } else {
                    Ok(0usize)
                };
                match lengths {
                    Err(e) => Err(e),
                    Ok(cl) => Ok(HeadView { method, path, content_length: cl }),
                }
            }
        }
    }
}

/// The meaning of the bytes of a request head (the bytes before the blank
/// line): they must be UTF-8.
pub open spec fn parse_head(bytes: Seq<u8>) -> Result<HeadView, HeadErrorView> {
    if valid_utf8(bytes) {
        parse_head_text(decode_utf8(bytes))
    } else {
        Err(("invalid UTF-8 in request headers"@, Some(crate::text::utf8_error_text(bytes))))
    }
}

/// Why a request head was refused: what was being read, and the text of the
/// error that stopped it, when there is one.
pub type HeadErrorView = (Seq<char>, Option<Seq<char>>);

/// Why a request head was refused: what was being read (`context`), and the
/// text of the error that stopped it (`cause`), when there is one.
pub struct HeadError {
    pub context: String,
    pub cause: Option<String>,
}

impl View for HeadError {
    type V = HeadErrorView;

    open spec fn view(&self) -> HeadErrorView {
        (
            self.context@,
            match self.cause {
                Some(c) => Some(c@),
                None => None,
            },
        )
    }
}

/// The text of a head error as one line: the context, then `: ` and the
/// cause when there is one.
pub open spec fn head_error_text(e: HeadErrorView) -> Seq<char> {
    match e.1 {
        Some(c) => e.0 + ": "@ + c,
        None => e.0,
    }
}

impl HeadError {
    fn plain(context: &str) -> (e: Self)
        ensures
            e@ == (context@, None::<Seq<char>>),
    {
        HeadError { context: owned(context), cause: None }
    }

    /// The error as one line of text.
    pub fn message(&self) -> (m: String)
        ensures
            m@ == head_error_text(self@),
    {
        let mut m = self.context.clone();
        match &self.cause {
            Some(c) => {
                m.append(": ");
                m.append(c.as_str());
            },
            None => {},
        }
        m
    }
}

/// The parts of a request that its head gives.
pub struct RequestHead {
    pub method: Method,
    pub path: String,
    pub content_length: usize,
}

} // verus!

verus! {

pub fn lower_ascii(c: char) -> (r: char)
    ensures
        r == ascii_lower(c),
{
    if 'A' <= c && c <= 'Z' {
        ((c as u8) + 32) as char
    } else {
        c
    }
}

fn digit_value(c: char) -> (r: usize)
    requires
        '0' <= c <= '9',
    ensures
        r == c as u32 - '0' as u32,
{
    (c as u32 - '0' as u32) as usize
}

} // verus!

verus! {

/// `s.parse::<usize>()` over a character slice.
fn parse_usize_chars(s: &[char]) -> (r: Result<usize, IntErrorKind>)
    ensures
        r == parse_usize(s@),
{
    if s.len() == 0 {
        return Err(IntErrorKind::Empty);
    }
    if (s[0] == '+' || s[0] == '-') && s.len() == 1 {
        return Err(IntErrorKind::InvalidDigit);
    }
    let start: usize = if s[0] == '+' { 1 } else { 0 };
    let ghost d = if s@[0] == '+' { s@.drop_first() } else { s@ };
    assert(d =~= s@.skip(start as int));
    let mut acc: usize = 0;
    let mut i = start;
    while i < s.len()
        invariant
            start <= i <= s@.len(),
            accumulate_digits(d, 0) == accumulate_digits(s@.skip(i as int), acc as nat),
            d == s@.skip(start as int),
            parse_usize(s@) == match accumulate_digits(d, 0) {
                Ok(n) => Ok::<usize, IntErrorKind>(n as usize),
                Err(e) => Err(e),
            },
        decreases s@.len() - i,
    {
        let c = s[i];
        assert(s@.skip(i as int)[0] == c);
        assert(s@.skip(i as int).drop_first() =~= s@.skip(i + 1));
        if !('0' <= c && c <= '9') {
            assert(accumulate_digits(s@.skip(i as int), acc as nat) == Err::<nat, IntErrorKind>(
                IntErrorKind::InvalidDigit,
            ));
            return Err(IntErrorKind::InvalidDigit);
        }
        let v = digit_value(c);
        assert(accumulate_digits(s@.skip(i as int), acc as nat) == if acc * 10 + v > usize::MAX {
            Err::<nat, IntErrorKind>(IntErrorKind::PosOverflow)
        } else {
            accumulate_digits(s@.skip(i + 1), (acc * 10 + v) as nat)
        });
        match acc.checked_mul(10) {
            None => {
                return Err(IntErrorKind::PosOverflow);
            },
            Some(m) => match m.checked_add(v) {
                None => {
                    return Err(IntErrorKind::PosOverflow);
                },
                Some(n) => {
                    acc = n;
                },
            },
        }
        i = i + 1;
    }
    assert(s@.skip(i as int) =~= Seq::<char>::empty());
    Ok(acc)
}

/// Exec [`first_ws`] over a character vector.
fn skip_to_whitespace(s: &Vec<char>, i: usize) -> (r: usize)
    requires
        i <= s@.len(),
    ensures
        r == first_ws(s@, i as int),
        i <= r <= s@.len(),
{
    let mut k = i;
    while k < s.len() && !crate::text::char_is_whitespace(s[k])
        invariant
            i <= k <= s@.len(),
            first_ws(s@, i as int) == first_ws(s@, k as int),
        decreases s@.len() - k,
    {
        k = k + 1;
    }
    k
}

proof fn lemma_find_crlf_bounds(s: Seq<char>, i: int)
    requires
        0 <= i <= s.len(),
    ensures
        i <= find_crlf(s, i) <= s.len(),
        find_crlf(s, i) < s.len() ==> find_crlf(s, i) + 1 < s.len() && s[find_crlf(s, i)] == '\r'
            && s[find_crlf(s, i) + 1] == '\n',
    decreases s.len() - i,
{
    if i + 1 < s.len() && !(s[i] == '\r' && s[i + 1] == '\n') {
        lemma_find_crlf_bounds(s, i + 1);
    }
}

/// Exec [`find_crlf`] over a character vector.
fn find_line_end(s: &Vec<char>, i: usize) -> (r: usize)
    requires
        i <= s@.len(),
    ensures
        r == find_crlf(s@, i as int),
        i <= r <= s@.len(),
{
    proof { lemma_find_crlf_bounds(s@, i as int); }
    let mut k = i;
    while s.len() > 0 && k < s.len() - 1 && !(s[k] == '\r' && s[k + 1] == '\n')
        invariant
            i <= k <= s@.len(),
            find_crlf(s@, i as int) == find_crlf(s@, k as int),
        decreases s@.len() - k,
    {
        k = k + 1;
    }
    if s.len() > 0 && k < s.len() - 1 {
        k
    } else {
        s.len()
    }
}

/// Whether `s[from..to]` equals `target` up to ASCII case.
fn range_eq_ignore_ascii_case(s: &Vec<char>, from: usize, to: usize, target: &Vec<char>) -> (r: bool)
    requires
        from <= to <= s@.len(),
    ensures
        r == eq_ignore_ascii_case(s@.subrange(from as int, to as int), target@),
{
    if to - from != target.len() {
        return false;
    }
    let mut i: usize = 0;
    while i < target.len()
        invariant
            to - from == target@.len(),
            from <= to <= s@.len(),
            i <= target@.len(),
            forall|j: int|
                0 <= j < i ==> ascii_lower(#[trigger] s@.subrange(from as int, to as int)[j])
                    == ascii_lower(target@[j]),
        decreases target@.len() - i,
    {
        if lower_ascii(s[from + i]) != lower_ascii(target[i]) {
            assert(s@.subrange(from as int, to as int)[i as int] == s@[from + i]);
            return false;
        }
        i = i + 1;
    }
    true
}

/// The content length after the header line `text[from..to]`.
fn line_content_length(text: &Vec<char>, from: usize, to: usize, cl: usize) -> (r: Result<usize, HeadError>)
    requires
        from <= to <= text@.len(),
    ensures
        match (r, header_content_length(text@.subrange(from as int, to as int), cl)) {
            (Ok(a), Ok(b)) => a == b,
            (Err(a), Err(b)) => a@ == b,
            _ => false,
        },
{
    let ghost line = text@.subrange(from as int, to as int);
    let colon = crate::text::find_char(text.as_slice(), ':', from);
    proof {
        crate::text::lemma_find_from_bounds(text@, ':', from as int);
        crate::text::lemma_find_from_skip(text@, ':', from as int, 0);
        crate::text::lemma_find_from_bounds(line, ':', 0);
        assert(line =~= text@.skip(from as int).take(to - from));
        lemma_find_within(text@.skip(from as int), ':', (to - from) as int);
    }
    if colon >= to {
        return Ok(cl);
    }
    let target = chars_of("content-length");
    proof {
        assert(line.take(colon - from) =~= text@.subrange(from as int, colon as int));
    }
    if !range_eq_ignore_ascii_case(text, from, colon, &target) {
        return Ok(cl);
    }
    let value = crate::text::string_from_range(text, colon + 1, to);
    proof {
        assert(line.skip(colon - from + 1) =~= value@);
    }
    let trimmed = crate::text::trimmed(value.as_str());
    let digits = chars_of(trimmed.as_str());
    match parse_usize_chars(digits.as_slice()) {
        Err(k) => {
            Err(
                HeadError {
                    context: owned("couldn't parse content-length"),
                    cause: Some(owned(int_error_message(k))),
                },
            )
        },
        Ok(n) => {
            if n > MAX_BODY_BYTES {
                Err(HeadError::plain("request body too large"))
            } else {
                Ok(n)
            }
        },
    }
}

/// A search that stops before `n` finds the same as a search in the first
/// `n` elements, when it does not reach `n`.
proof fn lemma_find_within<A>(s: Seq<A>, x: A, n: int)
    requires
        0 <= n <= s.len(),
    ensures
        find_from(s, x, 0) < n ==> find_from(s.take(n), x, 0) == find_from(s, x, 0),
        find_from(s, x, 0) >= n ==> find_from(s.take(n), x, 0) == n,
{
    lemma_find_within_from(s, x, n, 0);
}

proof fn lemma_find_within_from<A>(s: Seq<A>, x: A, n: int, i: int)
    requires
        0 <= n <= s.len(),
        0 <= i,
    ensures
        find_from(s, x, i) < n ==> find_from(s.take(n), x, i) == find_from(s, x, i),
        find_from(s, x, i) >= n ==> find_from(s.take(n), x, i) == n,
    decreases s.len() - i,
{
    if i < s.len() && s[i] != x {
        lemma_find_within_from(s, x, n, i + 1);
    }
}

/// The message of a `ParseIntError` of the given kind.
fn int_error_message(k: IntErrorKind) -> (m: &'static str)
    ensures
        m@ == int_error_text(k),
{
    match k {
        IntErrorKind::Empty => "cannot parse integer from empty string",
        IntErrorKind::InvalidDigit => "invalid digit found in string",
        IntErrorKind::PosOverflow => "number too large to fit in target type",
    }
}

} // verus!

verus! {

/// The content length given by the header lines of `text` from `pos` on.
fn headers_content_length(text: &Vec<char>, pos: usize) -> (r: Result<usize, HeadError>)
    requires
        pos <= text@.len(),
    ensures
        match (r, content_length_from(text@, pos as int, 0)) {
            (Ok(a), Ok(b)) => a == b,
            (Err(a), Err(b)) => a@ == b,
            _ => false,
        },
{
    let ghost all = content_length_from(text@, pos as int, 0);
    let mut cl: usize = 0;
    let mut p = pos;
    loop
        invariant
            p <= text@.len(),
            all == content_length_from(text@, p as int, cl),
            all == content_length_from(text@, pos as int, 0),
        decreases text@.len() - p,
    {
        let end = find_line_end(text, p);
        proof { lemma_find_crlf_bounds(text@, p as int); }
        match line_content_length(text, p, end, cl) {
            Err(e) => {
                return Err(e);
            },
            Ok(c) => {
                cl = c;
            },
        }
        if end < text.len() {
            p = end + 2;
        } else {
            return Ok(cl);
        }
    }
}

/// Reads the method, path and content length from the bytes of a request
/// head (the bytes before the blank line that ends it).
pub fn parse_request_head(head: &[u8]) -> (r: Result<RequestHead, HeadError>)
    ensures
        match (r, parse_head(head@)) {
            (Ok(h), Ok(v)) => h.method == v.method && h.path@ == v.path && h.content_length
                == v.content_length,
            (Err(e), Err(m)) => e@ == m,
            _ => false,
        },
{
    let text = match crate::text::str_from_utf8(head) {
        Ok(t) => t,
        Err(e) => {
            return Err(
                HeadError { context: owned("invalid UTF-8 in request headers"), cause: Some(e) },
            );
        },
    };
    let cs = chars_of(text);
    let line_end = find_line_end(&cs, 0);
    proof { lemma_find_crlf_bounds(cs@, 0); }
    let ghost line = cs@.take(line_end as int);
    let a0 = crate::text::skip_whitespace(&cs, 0);
    proof {
        lemma_first_non_ws_prefix(cs@, line_end as int, 0);
    }
    if a0 >= line_end {
        return Err(HeadError::plain("request is missing a method"));
    }
    let e0 = skip_to_whitespace(&cs, a0);
    proof {
        lemma_first_ws_prefix(cs@, line_end as int, a0 as int);
    }
    let e0 = if e0 > line_end { line_end } else { e0 };
    let name = crate::text::string_from_range(&cs, a0, e0);
    assert(name@ == line.subrange(a0 as int, e0 as int));
    let method = match Method::parse(name.as_str()) {
        Ok(m) => m,
        Err(e) => {
            let mut c = owned("invalid request method: ");
            c.append(name.as_str());
            return Err(HeadError { context: c, cause: Some(e) });
        },
    };
    proof {
        reveal_strlit("GET");
        reveal_strlit("POST");
    }
    let a1 = crate::text::skip_whitespace(&cs, e0);
    proof {
        lemma_first_non_ws_prefix(cs@, line_end as int, e0 as int);
    }
    if a1 >= line_end {
        return Err(HeadError::plain("request is missing a path"));
    }
    let e1 = skip_to_whitespace(&cs, a1);
    proof {
        lemma_first_ws_prefix(cs@, line_end as int, a1 as int);
    }
    let e1 = if e1 > line_end { line_end } else { e1 };
    let path = crate::text::string_from_range(&cs, a1, e1);
    assert(path@ == line.subrange(a1 as int, e1 as int));
    let content_length = if line_end < cs.len() {
        match headers_content_length(&cs, line_end + 2) {
            Ok(c) => c,
            Err(e) => {
                return Err(e);
            },
        }
    } else {
        0
    };
    Ok(RequestHead { method, path, content_length })
}

/// Skipping whitespace within a line prefix agrees with skipping in the
/// whole text, capped at the end of the prefix.
proof fn lemma_first_non_ws_prefix(s: Seq<char>, n: int, i: int)
    requires
        0 <= i <= n <= s.len(),
    ensures
        crate::text::first_non_ws(s.take(n), i) == if crate::text::first_non_ws(s, i) < n {
            crate::text::first_non_ws(s, i)
        } else {
            n
        },
    decreases n - i,
{
    if i < n && crate::text::is_whitespace(s[i]) {
        lemma_first_non_ws_prefix(s, n, i + 1);
    } else if i == n {
        crate::text::lemma_first_non_ws_bounds(s, i);
    }
}

/// Finding whitespace within a line prefix agrees with finding it in the
/// whole text, capped at the end of the prefix.
proof fn lemma_first_ws_prefix(s: Seq<char>, n: int, i: int)
    requires
        0 <= i <= n <= s.len(),
    ensures
        first_ws(s.take(n), i) == if first_ws(s, i) < n {
            first_ws(s, i)
        } else {
            n
        },
        i <= first_ws(s, i) <= s.len(),
    decreases n - i,
{
    if i < n && !crate::text::is_whitespace(s[i]) {
        lemma_first_ws_prefix(s, n, i + 1);
    } else if i == n {
        lemma_first_ws_bounds(s, i);
    }
}

proof fn lemma_first_ws_bounds(s: Seq<char>, i: int)
    requires
        0 <= i <= s.len(),
    ensures
        i <= first_ws(s, i) <= s.len(),
    decreases s.len() - i,
{
    if i < s.len() && !crate::text::is_whitespace(s[i]) {
        lemma_first_ws_bounds(s, i + 1);
    }
}

} // verus!

verus! {

/// The body bytes that arrived together with the head: those after the
/// blank line that ends it.
pub fn initial_body(buf: &[u8], header_end: usize) -> (b: Vec<u8>)
    requires
        blank_line_at(buf@, header_end as int),
    ensures
        b@ == buf@.skip(header_end + 4),
{
    let n = buf.len();
    assert(header_end + 4 <= n);
    let rest = &buf[header_end + 4..n];
    crate::text::bytes_to_vec(rest)
}

/// The request that a head and the body bytes read for it make; bytes
/// beyond the content length are dropped.
pub fn request_from_head(head: RequestHead, body: Vec<u8>) -> (r: Request)
    ensures
        r.method == head.method,
        r.path@ == head.path@,
        r.body@ == if body@.len() > head.content_length {
            body@.take(head.content_length as int)
        } else {
            body@
        },
{
    let mut body = body;
    body.truncate(head.content_length);
    Request { method: head.method, path: head.path, body }
}

/// The head of the response that opens an event stream.
pub const EVENT_STREAM_HEAD: &'static str = "HTTP/1.1 200 OK\r\nContent-Type: text/event-stream\r\nCache-Control: no-cache\r\nConnection: keep-alive\r\n\r\n";

/// The comment sent on an idle event stream to keep it open.
pub const KEEP_ALIVE: &'static str = ": keep-alive\n\n";

/// The event-stream message that carries `data`.
pub fn sse_event(data: &str) -> (m: String)
    ensures
        m@ == "data: "@ + data@ + "\n\n"@,
{
    let mut m = owned("data: ");
    m.append(data);
    m.append("\n\n");
    m
}

/// Whether a request opens the event stream of status updates: a GET of
/// `/events`.
pub fn is_event_stream(method: Method, path: &str) -> (r: bool)
    ensures
        r == (method == Method::Get && path@ == "/events"@),
{
    method == Method::Get && owned(path) == owned("/events")
}

} // verus!

verus! {

/// Naming a method and reading the name back gives the method.
pub proof fn law_method_name_roundtrip(m: Method)
    ensures
        method_named(method_name(m)) == Some(m),
{
    reveal_strlit("GET");
    reveal_strlit("POST");
    assert("POST"@ != "GET"@) by {
        assert("POST"@.len() != "GET"@.len());
    }
}

/// The path of a request target has no query left: normalizing twice is
/// normalizing once.
pub proof fn law_normalize_path_idempotent(p: Seq<char>)
    ensures
        ({
            let once = p.take(find_from(p, '?', 0));
            once.take(find_from(once, '?', 0)) == once
        }),
{
    let k = find_from(p, '?', 0);
    crate::text::lemma_find_from_bounds(p, '?', 0);
    let once = p.take(k);
    crate::text::lemma_find_from_bounds(once, '?', 0);
    if find_from(once, '?', 0) < once.len() {
        assert(once[find_from(once, '?', 0)] == p[find_from(once, '?', 0)]);
    }
    assert(once.take(once.len() as int) =~= once);
}

proof fn lemma_header_end_is(buf: Seq<u8>, i: int)
    requires
        blank_line_at(buf, i),
        forall|j: int| 0 <= j < i ==> !blank_line_at(buf, j),
    ensures
        header_end(buf) == Some(i),
{
    let c = choose|k: int| blank_line_at(buf, k) && forall|j: int| 0 <= j < k ==> !blank_line_at(buf, j);
    assert(blank_line_at(buf, c) && forall|j: int| 0 <= j < c ==> !blank_line_at(buf, j));
    if c < i {
        assert(!blank_line_at(buf, c));
    }
    if i < c {
        assert(!blank_line_at(buf, i));
    }
}

proof fn lemma_header_end_props(buf: Seq<u8>)
    requires
        header_end(buf) is Some,
    ensures
        blank_line_at(buf, header_end(buf)->0),
        forall|j: int| 0 <= j < header_end(buf)->0 ==> !blank_line_at(buf, j),
{
    let i = choose|k: int| blank_line_at(buf, k);
    assert(blank_line_at(buf, i));
    lemma_first_blank_exists(buf, i);
}

proof fn lemma_first_blank_exists(buf: Seq<u8>, i: int)
    requires
        blank_line_at(buf, i),
    ensures
        exists|k: int| blank_line_at(buf, k) && forall|j: int| 0 <= j < k ==> !blank_line_at(buf, j),
    decreases i,
{
    if exists|j: int| 0 <= j < i && blank_line_at(buf, j) {
        let j = choose|j: int| 0 <= j < i && blank_line_at(buf, j);
        lemma_first_blank_exists(buf, j);
    } else {
        assert(blank_line_at(buf, i) && forall|j: int| 0 <= j < i ==> !blank_line_at(buf, j));
    }
}

/// Once the head of a request is complete, more bytes do not move its end:
/// the body that follows cannot change where the head ends.
pub proof fn law_header_end_stable(buf: Seq<u8>, more: Seq<u8>)
    requires
        header_end(buf) is Some,
    ensures
        header_end(buf + more) == header_end(buf),
{
    lemma_header_end_props(buf);
    let i = header_end(buf)->0;
    let all = buf + more;
    assert(all[i] == buf[i] && all[i + 1] == buf[i + 1] && all[i + 2] == buf[i + 2] && all[i + 3]
        == buf[i + 3]);
    assert forall|j: int| 0 <= j < i implies !blank_line_at(all, j) by {
        assert(all[j] == buf[j] && all[j + 1] == buf[j + 1] && all[j + 2] == buf[j + 2] && all[j
            + 3] == buf[j + 3]);
        assert(!blank_line_at(buf, j));
    }
    lemma_header_end_is(all, i);
}

proof fn lemma_content_length_bounded(text: Seq<char>, pos: int, cl: usize)
    requires
        cl <= MAX_BODY_BYTES,
    ensures
        content_length_from(text, pos, cl) matches Ok(c) ==> c <= MAX_BODY_BYTES,
    decreases text.len() - pos,
{
    if 0 <= pos <= text.len() {
        let end = find_crlf(text, pos);
        if let Ok(c) = header_content_length(text.subrange(pos, end), cl) {
            if pos <= end && end + 1 < text.len() {
                lemma_content_length_bounded(text, end + 2, c);
            }
        }
    }
}

/// A request head that parses never announces a body larger than
/// [`MAX_BODY_BYTES`].
pub proof fn law_head_body_bounded(bytes: Seq<u8>)
    ensures
        parse_head(bytes) matches Ok(v) ==> v.content_length <= MAX_BODY_BYTES,
{
    if valid_utf8(bytes) {
        let text = decode_utf8(bytes);
        let line_end = find_crlf(text, 0);
        if line_end < text.len() {
            lemma_content_length_bounded(text, line_end + 2, 0);
        }
    }
}

proof fn lemma_digit_char(d: nat)
    requires
        d < 10,
    ensures
        '0' <= crate::text::digit_char(d) <= '9',
        crate::text::digit_char(d) as u32 - '0' as u32 == d,
{
}

proof fn lemma_accumulate_push(a: Seq<char>, c: char, acc: nat)
    ensures
        accumulate_digits(a.push(c), acc) == match accumulate_digits(a, acc) {
            Ok(v) => accumulate_digits(seq![c], v),
            Err(e) => Err(e),
        },
    decreases a.len(),
{
    if a.len() == 0 {
        assert(a.push(c) =~= seq![c]);
    } else {
        assert(a.push(c).drop_first() =~= a.drop_first().push(c));
        if '0' <= a[0] <= '9' {
            let v = acc * 10 + (a[0] as u32 - '0' as u32);
            if v <= usize::MAX {
                lemma_accumulate_push(a.drop_first(), c, v as nat);
            }
        }
    }
}

proof fn lemma_accumulate_decimal(n: nat)
    requires
        n <= usize::MAX,
    ensures
        accumulate_digits(decimal(n), 0) == Ok::<nat, IntErrorKind>(n),
    decreases n,
{
    if n < 10 {
        lemma_digit_char(n);
        assert(accumulate_digits(seq![crate::text::digit_char(n)].drop_first(), n) == Ok::<
            nat,
            IntErrorKind,
        >(n));
    } else {
        lemma_accumulate_decimal(n / 10);
        lemma_accumulate_push(decimal(n / 10), crate::text::digit_char(n % 10), 0);
        lemma_digit_char(n % 10);
        let c = crate::text::digit_char(n % 10);
        assert(seq![c].drop_first() =~= Seq::<char>::empty());
        assert((n / 10) * 10 + n % 10 == n);
    }
}

proof fn lemma_decimal_starts_with_digit(n: nat)
    ensures
        decimal(n).len() > 0,
        '0' <= decimal(n)[0] <= '9',
    decreases n,
{
    if n < 10 {
        lemma_digit_char(n);
    } else {
        lemma_decimal_starts_with_digit(n / 10);
    }
}

/// A length written in decimal, as in a `Content-Length` header, reads back
/// as the same number.
pub proof fn law_decimal_parses_back(n: usize)
    ensures
        parse_usize(decimal(n as nat)) == Ok::<usize, IntErrorKind>(n),
{
    lemma_accumulate_decimal(n as nat);
    lemma_decimal_starts_with_digit(n as nat);
}

} // verus!

verus! {

/// The answer to a request whose handling failed: 500 with the error text
/// as a plain-text body.
pub fn failure_response(message: &str) -> (r: Response)
    ensures
        r@ == (ResponseView {
            status: 500,
            headers: map!["Content-Type"@ => "text/plain"@],
            body: Some(encode_utf8(message@)),
        }),
{
    let body = utf8_bytes(message);
    Response::builder(StatusCode::internal_server_error()).header(
        owned("Content-Type"),
        owned("text/plain"),
    ).body(body.as_slice())
}

/// What the update channel of an event stream gave.
pub enum StreamEvent {
    /// A new status, as JSON text.
    Update(String),
    /// Nothing arrived for a while.
    Idle,
    /// The channel is closed.
    Closed,
}

/// What to do next on an event stream.
pub enum StreamAction {
    /// Write these bytes to the client (then flush).
    Send(String),
    /// End the stream.
    Stop,
}

/// The next step of an event stream: an update is sent as a `data:`
/// message, an idle spell as a keep-alive comment, and a closed channel ends
/// the stream.
pub fn stream_step(event: StreamEvent) -> (a: StreamAction)
    ensures
        match event {
            StreamEvent::Update(json) => a matches StreamAction::Send(m) && m@ == "data: "@
                + json@ + "\n\n"@,
            StreamEvent::Idle => a matches StreamAction::Send(m) && m@ == KEEP_ALIVE@,
            StreamEvent::Closed => a is Stop,
        },
{
    match event {
        StreamEvent::Update(json) => StreamAction::Send(sse_event(json.as_str())),
        StreamEvent::Idle => StreamAction::Send(owned(KEEP_ALIVE)),
        StreamEvent::Closed => StreamAction::Stop,
    }
}

} // verus!

verus! {

/// The response written for the outcome of handling a request: the
/// handler's response, or, when handling failed, 500 with the text of the
/// error.
pub fn answer(outcome: Result<Response, crate::dynerror::Error>) -> (r: Response)
    ensures
        match outcome {
            Ok(resp) => r == resp,
            Err(e) => r@ == (ResponseView {
                status: 500,
                headers: map!["Content-Type"@ => "text/plain"@],
                body: Some(encode_utf8(crate::dynerror::shown_error(e))),
            }),
        },
{
    match outcome {
        Ok(resp) => resp,
        Err(e) => {
            let text = e.to_text(false);
            failure_response(text.as_str())
        },
    }
}

} // verus!

verus! {

/// The head of a response ends with a `Content-Length` line whose value
/// reads back as the exact number of bytes of the body (0 without a body),
/// followed by `Connection: close` and the blank line.
pub proof fn law_head_states_body_length(v: ResponseView)
    requires
        v.body matches Some(b) ==> b.len() <= usize::MAX,
    ensures
        exists|pre: Seq<char>, digits: Seq<char>|
            #[trigger] (pre + "\r\nContent-Length: "@ + digits) + "\r\nConnection: close\r\n\r\n"@
                == response_head(v) && (parse_usize(digits) matches Ok(n) && n == match v.body {
                Some(b) => b.len(),
                None => 0,
            }),
{
    let content_type = if v.headers.contains_key("Content-Type"@) {
        v.headers["Content-Type"@]
    } else {
        "application/octet-stream"@
    };
    let length: usize = match v.body {
        Some(b) => b.len() as usize,
        None => 0,
    };
    let pre = "HTTP/1.1 "@ + status_text(v.status) + "\r\nContent-Type: "@ + content_type;
    let digits = decimal(length as nat);
    law_decimal_parses_back(length);
    assert((pre + "\r\nContent-Length: "@ + digits) + "\r\nConnection: close\r\n\r\n"@
        == response_head(v));
}

} // verus!
