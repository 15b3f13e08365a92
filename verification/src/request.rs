//! Requests, and how one is read from the bytes that a client sent.

use crate::ascii::{
    all_in_class, bytes_eq, bytes_in_class, crlf_at, find_byte, find_crlf, in_class, is_token,
    lemma_find_byte_at, lemma_find_crlf, lemma_find_crlf_at, position_of, position_of_crlf,
    read_decimal, ByteClass, COLON, CR, LF, SLASH, SP,
};
use crate::header::{
    declared_length, header_of_line, header_views, is_field, lemma_lines_of_headers_front,
    lemma_read_line_is_field, lemma_written_line_is_read, line_of_header, lines_of_headers,
    lookup, BodyLength, Header, HeaderView,
};
use vstd::prelude::*;
use vstd::slice::{slice_subrange, slice_to_vec};
use vstd::string::StringSliceAdditionalSpecFns;

verus! {

/// Why a byte string is not a request.
#[derive(Clone, Copy, Debug, PartialEq, Eq, Structural)]
pub enum ParseError {
    /// The bytes end before the request does: a line end, the blank line
    /// after the headers, or part of the announced body is missing.
    Incomplete,
    /// The first line is not `method SP path SP HTTP/1.1`.
    BadRequestLine,
    /// A header line is not `name: value`.
    BadHeader,
    /// The `Content-Length` field is not a decimal numeral.
    BadContentLength,
}

/// A request as a client sent it.
#[derive(Clone, Debug, PartialEq, Eq)]
pub struct Request {
    pub method: Vec<u8>,
    pub path: Vec<u8>,
    pub headers: Vec<Header>,
    pub body: Option<Vec<u8>>,
}

/// A request as plain byte strings.
pub struct RequestView {
    pub method: Seq<u8>,
    pub path: Seq<u8>,
    pub headers: Seq<HeaderView>,
    pub body: Option<Seq<u8>>,
}

impl View for Request {
    type V = RequestView;

    open spec fn view(&self) -> RequestView {
        RequestView {
            method: self.method@,
            path: self.path@,
            headers: header_views(self.headers@),
            body: match self.body {
                Some(b) => Some(b@),
                None => None,
            },
        }
    }
}

/// The only protocol version that is spoken.
pub open spec fn version() -> Seq<u8> {
    "HTTP/1.1".spec_bytes()
}

/// A request path: visible characters, the first of them a slash.
pub open spec fn is_path(s: Seq<u8>) -> bool {
    s.len() > 0 && s[0] == SLASH && all_in_class(ByteClass::Visible, s)
}

/// The method and the path of a request line, given without its line end:
/// a token, a space, a path, a space and the version.
pub open spec fn request_line(line: Seq<u8>) -> Option<(Seq<u8>, Seq<u8>)> {
    match find_byte(line, SP, 0) {
        None => None,
        Some(a) => match find_byte(line, SP, a + 1) {
            None => None,
            Some(b) => {
                let method = line.subrange(0, a);
                let path = line.subrange(a + 1, b);
                if is_token(method) && is_path(path) && line.subrange(b + 1, line.len() as int)
                    == version() {
                    Some((method, path))
                } else {
                    None
                }
            },
        },
    }
}

/// The outcome of reading header lines: the fields, and where the body starts.
pub type HeaderBlock = Result<(Seq<HeaderView>, int), ParseError>;

/// `block` with the fields of `prefix` put before its own.
pub open spec fn with_prefix(prefix: Seq<HeaderView>, block: HeaderBlock) -> HeaderBlock {
    match block {
        Ok((fields, end)) => Ok((prefix + fields, end)),
        Err(e) => Err(e),
    }
}

/// The header lines of `s` from `pos` up to the first blank line.
pub open spec fn headers_from(s: Seq<u8>, pos: int) -> HeaderBlock
    decreases s.len() - pos,
{
    match find_crlf(s, pos) {
        None => Err(ParseError::Incomplete),
        Some(end) => if end == pos {
            Ok((Seq::empty(), end + 2))
        } else {
            proof {
                lemma_find_crlf(s, pos);
            }
            match header_of_line(s.subrange(pos, end)) {
                None => Err(ParseError::BadHeader),
                Some(field) => with_prefix(seq![field], headers_from(s, end + 2)),
            }
        },
    }
}

/// The request that `s` starts with.
///
/// The request line and each header line end in CR LF, a blank line ends the
/// headers. A `Content-Length` field announces a body of that many bytes;
/// without the field there is no body. Bytes after the request are ignored.
pub open spec fn parse_request(s: Seq<u8>) -> Result<RequestView, ParseError> {
    match find_crlf(s, 0) {
        None => Err(ParseError::Incomplete),
        Some(end) => match request_line(s.subrange(0, end)) {
            None => Err(ParseError::BadRequestLine),
            Some((method, path)) => match headers_from(s, end + 2) {
                Err(e) => Err(e),
                Ok((headers, start)) => match declared_length(headers) {
                    BodyLength::Absent => Ok(RequestView { method, path, headers, body: None }),
                    BodyLength::Invalid => Err(ParseError::BadContentLength),
                    BodyLength::Length(n) => if start + n <= s.len() {
                        Ok(
                            RequestView {
                                method,
                                path,
                                headers,
                                body: Some(s.subrange(start, start + n)),
                            },
                        )
                    } else {
                        Err(ParseError::Incomplete)
                    },
                },
            },
        },
    }
}

/// Reads a request line, given without its line end.
pub fn parse_request_line(line: &[u8]) -> (r: Option<(Vec<u8>, Vec<u8>)>)
    ensures
        match r {
            Some((method, path)) => request_line(line@) == Some((method@, path@)),
            None => request_line(line@) is None,
        },
{
    let end = line.len();
    let a = match position_of(line, SP, 0) {
        Some(a) => a,
        None => { return None; },
    };
    let b = match position_of(line, SP, a + 1) {
        Some(b) => b,
        None => { return None; },
    };
    let method = slice_subrange(line, 0, a);
    let path = slice_subrange(line, a + 1, b);
    let rest = slice_subrange(line, b + 1, end);
    if method.len() > 0 && bytes_in_class(ByteClass::Token, method) && path.len() > 0 && path[0]
        == SLASH && bytes_in_class(ByteClass::Visible, path) && bytes_eq(
        rest,
        "HTTP/1.1".as_bytes(),
    ) {
        Some((slice_to_vec(method), slice_to_vec(path)))
    } else {
        None
    }
}

/// Reads the header lines of `input` from `start` up to the first blank
/// line, and says where the body starts.
pub fn parse_headers(input: &[u8], start: usize) -> (r: Result<(Vec<Header>, usize), ParseError>)
    ensures
        match r {
            Ok((headers, body)) => headers_from(input@, start as int) == Ok::<
                (Seq<HeaderView>, int),
                ParseError,
            >((header_views(headers@), body as int)) && start <= body <= input@.len(),
            Err(e) => headers_from(input@, start as int) == Err::<
                (Seq<HeaderView>, int),
                ParseError,
            >(e),
        },
{
    let end = input.len();
    let mut headers: Vec<Header> = Vec::new();
    let mut pos: usize = start;
    assert(header_views(headers@) =~= Seq::empty());
    loop
        invariant
            start <= pos,
            pos <= input@.len() || pos == start,
            end == input@.len(),
            headers_from(input@, start as int) == with_prefix(
                header_views(headers@),
                headers_from(input@, pos as int),
            ),
        decreases input@.len() - pos,
    {
        let eol = match position_of_crlf(input, pos) {
            Some(e) => e,
            None => { return Err(ParseError::Incomplete); },
        };
        if eol == pos {
            assert(header_views(headers@) + Seq::<HeaderView>::empty() =~= header_views(headers@));
            return Ok((headers, eol + 2));
        }
        let field = match Header::parse(slice_subrange(input, pos, eol)) {
            Some(h) => h,
            None => { return Err(ParseError::BadHeader); },
        };
        proof {
            let before = header_views(headers@);
            let after = header_views(headers@.push(field));
            assert(after =~= before.push(field@));
            match headers_from(input@, eol + 2) {
                Ok((fields, _)) => {
                    assert(before + (seq![field@] + fields) =~= after + fields);
                },
                Err(_) => {},
            }
        }
        headers.push(field);
        pos = eol + 2;
    }
}

impl Request {
    /// Reads the request that `input` starts with.
    pub fn parse(input: &[u8]) -> (r: Result<Request, ParseError>)
        ensures
            match r {
                Ok(request) => parse_request(input@) == Ok::<RequestView, ParseError>(request@),
                Err(e) => parse_request(input@) == Err::<RequestView, ParseError>(e),
            },
    {
        let end = input.len();
        let eol = match position_of_crlf(input, 0) {
            Some(e) => e,
            None => { return Err(ParseError::Incomplete); },
        };
        let (method, path) = match parse_request_line(slice_subrange(input, 0, eol)) {
            Some(line) => line,
            None => { return Err(ParseError::BadRequestLine); },
        };
        let (headers, start) = match parse_headers(input, eol + 2) {
            Ok(block) => block,
            Err(e) => { return Err(e); },
        };
        let body = match lookup(&headers, "Content-Length".as_bytes()) {
            None => None,
            Some(value) => {
                if value.len() == 0 || !bytes_in_class(ByteClass::Digit, value.as_slice()) {
                    return Err(ParseError::BadContentLength);
                }
                match read_decimal(value.as_slice()) {
                    Some(n) => {
                        if n > end - start {
                            return Err(ParseError::Incomplete);
                        }
                        Some(slice_to_vec(slice_subrange(input, start, start + n)))
                    },
                    None => { return Err(ParseError::Incomplete); },
                }
            },
        };
        Ok(Request { method, path, headers, body })
    }
}

/// A request that can be written and read back: the method is a token, the
/// path a path, each header a field, and the headers announce the body that
/// there is.
pub open spec fn is_request(r: RequestView) -> bool {
    &&& is_token(r.method)
    &&& is_path(r.path)
    &&& forall|i: int| 0 <= i < r.headers.len() ==> is_field(#[trigger] r.headers[i])
    &&& match r.body {
        None => declared_length(r.headers) == BodyLength::Absent,
        Some(body) => declared_length(r.headers) == BodyLength::Length(body.len()),
    }
}

/// The request line of a request, without its line end.
pub open spec fn line_of_request(r: RequestView) -> Seq<u8> {
    r.method + seq![SP] + r.path + seq![SP] + version()
}

/// The bytes that a client sends for a request.
pub open spec fn request_bytes(r: RequestView) -> Seq<u8> {
    line_of_request(r) + seq![CR, LF] + lines_of_headers(r.headers) + seq![CR, LF] + match r.body {
        Some(body) => body,
        None => Seq::empty(),
    }
}

/// The bytes of the protocol version.
pub proof fn lemma_version_bytes()
    ensures
        version() == seq![72u8, 84u8, 84u8, 80u8, 47u8, 49u8, 46u8, 49u8],
{
    reveal_strlit("HTTP/1.1");
    let s = "HTTP/1.1";
    assert(vstd::string::is_ascii(s));
    vstd::string::is_ascii_spec_bytes(s);
    assert(version() =~= seq![72u8, 84u8, 84u8, 80u8, 47u8, 49u8, 46u8, 49u8]);
}

/// The request line that is written for a method and a path is read as
/// these two.
pub proof fn lemma_written_request_line_is_read(r: RequestView)
    requires
        is_token(r.method),
        is_path(r.path),
    ensures
        request_line(line_of_request(r)) == Some((r.method, r.path)),
        forall|k: int| 0 <= k < line_of_request(r).len() ==> line_of_request(r)[k] != CR,
{
    let line = line_of_request(r);
    let a = r.method.len() as int;
    let b = a + 1 + r.path.len();
    lemma_version_bytes();
    assert forall|k: int| 0 <= k < a implies line[k] != SP && line[k] != CR by {
        assert(in_class(ByteClass::Token, r.method[k]));
    }
    assert forall|k: int| a + 1 <= k < b implies line[k] != SP && line[k] != CR by {
        assert(in_class(ByteClass::Visible, r.path[k - a - 1]));
    }
    assert forall|k: int| b + 1 <= k < line.len() implies line[k] != CR by {
        assert(line[k] == version()[k - b - 1]);
    }
    lemma_find_byte_at(line, SP, 0, a);
    lemma_find_byte_at(line, SP, a + 1, b);
    assert(line.subrange(0, a) =~= r.method);
    assert(line.subrange(a + 1, b) =~= r.path);
    assert(line.subrange(b + 1, line.len() as int) =~= version());
}

/// The header lines that are written for fields, with the blank line after
/// them, are read as these fields.
pub proof fn lemma_written_headers_are_read(s: Seq<u8>, pos: int, headers: Seq<HeaderView>)
    requires
        0 <= pos,
        forall|i: int| 0 <= i < headers.len() ==> is_field(#[trigger] headers[i]),
        pos + lines_of_headers(headers).len() + 2 <= s.len(),
        s.subrange(pos, pos + lines_of_headers(headers).len() + 2) == lines_of_headers(headers)
            + seq![CR, LF],
    ensures
        headers_from(s, pos) == Ok::<(Seq<HeaderView>, int), ParseError>(
            (headers, pos + lines_of_headers(headers).len() + 2),
        ),
    decreases headers.len(),
{
    let lines = lines_of_headers(headers);
    let window = s.subrange(pos, pos + lines.len() + 2);
    if headers.len() == 0 {
        assert(window[0] == CR && window[1] == LF);
        assert(crlf_at(s, pos));
        assert(headers =~= Seq::empty());
        assert(find_crlf(s, pos) == Some(pos));
    } else {
        let h = headers[0];
        let rest = headers.drop_first();
        let text = h.name + seq![COLON, SP] + h.value;
        let end = pos + text.len();
        lemma_lines_of_headers_front(headers);
        assert(is_field(h));
        assert(line_of_header(h) =~= text + seq![CR, LF]);
        assert forall|k: int| pos <= k < end implies !crlf_at(s, k) by {
            let j = k - pos;
            assert(s[k] == window[j]);
            assert(window[j] == text[j]);
            if j < h.name.len() {
                assert(in_class(ByteClass::Token, h.name[j]));
            } else if j >= h.name.len() + 2 {
                assert(in_class(ByteClass::Field, h.value[j - h.name.len() - 2]));
            }
        }
        assert(crlf_at(s, end)) by {
            assert(s[end] == window[end - pos]);
            assert(s[end + 1] == window[end + 1 - pos]);
        }
        lemma_find_crlf_at(s, pos, end);
        assert(s.subrange(pos, end) =~= text);
        lemma_written_line_is_read(h);
        assert forall|i: int| 0 <= i < rest.len() implies is_field(#[trigger] rest[i]) by {
            assert(rest[i] == headers[i + 1]);
        }
        assert(s.subrange(end + 2, end + 2 + lines_of_headers(rest).len() + 2) =~= lines_of_headers(
            rest,
        ) + seq![CR, LF]) by {
            assert forall|j: int| 0 <= j < lines_of_headers(rest).len() + 2 implies s[end + 2 + j]
                == (lines_of_headers(rest) + seq![CR, LF])[j] by {
                assert(s[end + 2 + j] == window[text.len() + 2 + j]);
            }
        }
        lemma_written_headers_are_read(s, end + 2, rest);
        assert(seq![h] + rest =~= headers);
        assert(find_crlf(s, pos) == Some(end));
        assert(header_of_line(s.subrange(pos, end)) == Some(h));
        assert(lines.len() == text.len() + 2 + lines_of_headers(rest).len());
        assert(headers_from(s, end + 2) == Ok::<(Seq<HeaderView>, int), ParseError>(
            (rest, pos + lines.len() + 2),
        ));
        assert(headers_from(s, pos) == with_prefix(seq![h], headers_from(s, end + 2)));
    }
}

/// Whatever is read as header lines are fields, and the body starts after
/// them.
pub proof fn lemma_read_headers_are_fields(s: Seq<u8>, pos: int)
    requires
        0 <= pos,
    ensures
        headers_from(s, pos) matches Ok((headers, start)) ==> pos + 2 <= start <= s.len()
            && forall|i: int| 0 <= i < headers.len() ==> is_field(#[trigger] headers[i]),
    decreases s.len() - pos,
{
    lemma_find_crlf(s, pos);
    match find_crlf(s, pos) {
        Some(end) => {
            if end != pos {
                let line = s.subrange(pos, end);
                lemma_read_line_is_field(line);
                lemma_read_headers_are_fields(s, end + 2);
                match (header_of_line(line), headers_from(s, end + 2)) {
                    (Some(field), Ok((rest, _))) => {
                        let headers = seq![field] + rest;
                        assert forall|i: int| 0 <= i < headers.len() implies is_field(
                            #[trigger] headers[i],
                        ) by {
                            if i > 0 {
                                assert(headers[i] == rest[i - 1]);
                            }
                        }
                    },
                    _ => {},
                }
            }
        },
        None => {},
    }
}

/// A request that is written as the protocol has it is read as it was:
/// whatever its method, path, fields and body, and whatever follows it on
/// the connection.
pub proof fn law_written_request_is_read(r: RequestView, trailing: Seq<u8>)
    requires
        is_request(r),
    ensures
        parse_request(request_bytes(r) + trailing) == Ok::<RequestView, ParseError>(r),
{
    let s = request_bytes(r) + trailing;
    let line = line_of_request(r);
    let end = line.len() as int;
    let lines = lines_of_headers(r.headers);
    let start = end + 2 + lines.len() + 2;
    lemma_written_request_line_is_read(r);
    assert forall|k: int| 0 <= k < end implies !crlf_at(s, k) by {
        assert(s[k] == line[k]);
    }
    assert(crlf_at(s, end));
    lemma_find_crlf_at(s, 0, end);
    assert(s.subrange(0, end) =~= line);
    assert(s.subrange(end + 2, end + 2 + lines.len() + 2) =~= lines + seq![CR, LF]);
    lemma_written_headers_are_read(s, end + 2, r.headers);
    match r.body {
        Some(body) => {
            assert(s.subrange(start, start + body.len()) =~= body);
        },
        None => {},
    }
}

/// A request that was read is one that can be written: no application is
/// handed a method that is no token, a path that is no path, a header that
/// is no field, or a body of another length than the headers announce.
pub proof fn law_read_request_is_well_formed(s: Seq<u8>)
    ensures
        parse_request(s) matches Ok(r) ==> is_request(r),
{
    lemma_find_crlf(s, 0);
    match find_crlf(s, 0) {
        Some(end) => {
            lemma_read_headers_are_fields(s, end + 2);
        },
        None => {},
    }
}

} // verus!
