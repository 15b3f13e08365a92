//! Responses, and the bytes that are written for one.

use crate::ascii::{
    decimal_digits, eq_ignore_case, lemma_decimal_round_trip, push_decimal, CR, LF, SP,
};
use crate::header::{
    content_length_name, declared_length, find_header, header_views, line_of_header,
    lines_of_headers, BodyLength, Header, HeaderView,
};
use crate::request::version;
use vstd::prelude::*;
use vstd::slice::slice_to_vec;
use vstd::string::StringSliceAdditionalSpecFns;

verus! {

/// The status of a response.
#[derive(Clone, Copy, Debug, PartialEq, Eq, Structural)]
pub enum StatusCode {
    /// 200 OK.
    Success,
    /// 400 Bad Request.
    BadRequest,
    /// 404 Not Found.
    NotFound,
    /// 405 Method Not Allowed.
    MethodNotAllowed,
    /// 500 Internal Server Error.
    InternalServerError,
}

impl StatusCode {
    /// The three-digit number of the status.
    pub open spec fn number(self) -> nat {
        match self {
            StatusCode::Success => 200,
            StatusCode::BadRequest => 400,
            StatusCode::NotFound => 404,
            StatusCode::MethodNotAllowed => 405,
            StatusCode::InternalServerError => 500,
        }
    }

    /// The phrase that follows the number in a status line.
    pub open spec fn phrase(self) -> Seq<u8> {
        match self {
            StatusCode::Success => "OK".spec_bytes(),
            StatusCode::BadRequest => "Bad Request".spec_bytes(),
            StatusCode::NotFound => "Not Found".spec_bytes(),
            StatusCode::MethodNotAllowed => "Method Not Allowed".spec_bytes(),
            StatusCode::InternalServerError => "Internal Server Error".spec_bytes(),
        }
    }

    /// The three-digit number of the status.
    pub fn code(self) -> (n: u16)
        ensures
            n == self.number(),
    {
        match self {
            StatusCode::Success => 200,
            StatusCode::BadRequest => 400,
            StatusCode::NotFound => 404,
            StatusCode::MethodNotAllowed => 405,
            StatusCode::InternalServerError => 500,
        }
    }

    /// The phrase that follows the number in a status line.
    pub fn reason(self) -> (s: &'static str)
        ensures
            s.spec_bytes() == self.phrase(),
    {
        match self {
            StatusCode::Success => "OK",
            StatusCode::BadRequest => "Bad Request",
            StatusCode::NotFound => "Not Found",
            StatusCode::MethodNotAllowed => "Method Not Allowed",
            StatusCode::InternalServerError => "Internal Server Error",
        }
    }
}

/// What is sent back on a connection.
#[derive(Clone, Debug, PartialEq, Eq)]
pub struct Response {
    pub status: StatusCode,
    pub headers: Vec<Header>,
    pub body: Vec<u8>,
}

/// A response as plain byte strings.
pub struct ResponseView {
    pub status: StatusCode,
    pub headers: Seq<HeaderView>,
    pub body: Seq<u8>,
}

impl View for Response {
    type V = ResponseView;

    open spec fn view(&self) -> ResponseView {
        ResponseView {
            status: self.status,
            headers: header_views(self.headers@),
            body: self.body@,
        }
    }
}

/// The first line of a response, with its line end.
pub open spec fn status_line(status: StatusCode) -> Seq<u8> {
    version() + seq![SP] + decimal_digits(status.number()) + seq![SP] + status.phrase() + seq![
        CR,
        LF,
    ]
}

/// The bytes of a response: the status line, the header lines, a blank line
/// and the body.
pub open spec fn serialize(r: ResponseView) -> Seq<u8> {
    status_line(r.status) + lines_of_headers(r.headers) + seq![CR, LF] + r.body
}

/// The response to a request that could not be read: status 400, with the
/// given page as its body, announced as HTML of that length.
pub open spec fn bad_request(page: Seq<u8>) -> ResponseView {
    ResponseView {
        status: StatusCode::BadRequest,
        headers: seq![
            HeaderView { name: "Content-Type".spec_bytes(), value: "text/html".spec_bytes() },
            HeaderView {
                name: "Content-Length".spec_bytes(),
                value: decimal_digits(page.len()),
            },
        ],
        body: page,
    }
}

impl Response {
    /// The response to a request that could not be read.
    pub fn bad_request(page: &[u8]) -> (r: Response)
        ensures
            r@ == bad_request(page@),
    {
        let mut length: Vec<u8> = Vec::new();
        push_decimal(&mut length, page.len());
        assert(length@ =~= decimal_digits(page@.len()));
        let mut headers: Vec<Header> = Vec::new();
        headers.push(Header::new("Content-Type".as_bytes(), "text/html".as_bytes()));
        headers.push(
            Header { name: slice_to_vec("Content-Length".as_bytes()), value: length },
        );
        let r = Response { status: StatusCode::BadRequest, headers, body: slice_to_vec(page) };
        assert(r@.headers =~= bad_request(page@).headers);
        r
    }

    /// The bytes to write for this response.
    pub fn serialize(&self) -> (out: Vec<u8>)
        ensures
            out@ == serialize(self@),
    {
        let mut out: Vec<u8> = Vec::new();
        out.extend_from_slice("HTTP/1.1".as_bytes());
        out.push(SP);
        push_decimal(&mut out, self.status.code() as usize);
        out.push(SP);
        out.extend_from_slice(self.status.reason().as_bytes());
        out.push(CR);
        out.push(LF);
        assert(out@ =~= status_line(self.status));
        let ghost fields = header_views(self.headers@);
        let mut i: usize = 0;
        assert(fields.take(0) =~= Seq::empty());
        while i < self.headers.len()
            invariant
                i <= self.headers@.len(),
                fields == header_views(self.headers@),
                out@ == status_line(self.status) + lines_of_headers(fields.take(i as int)),
            decreases self.headers@.len() - i,
        {
            self.headers[i].write_to(&mut out);
            proof {
                assert(fields.take(i + 1).drop_last() =~= fields.take(i as int));
                assert(fields.take(i + 1).last() == self.headers@[i as int]@);
            }
            i += 1;
        }
        assert(fields.take(i as int) =~= fields);
        out.push(CR);
        out.push(LF);
        out.extend_from_slice(self.body.as_slice());
        assert(out@ =~= serialize(self@));
        out
    }
}

/// The 400 response announces the body that it has: its headers give the
/// length of the page, as a reader of the response finds it.
pub proof fn law_bad_request_announces_its_body(page: Seq<u8>)
    ensures
        declared_length(bad_request(page).headers) == BodyLength::Length(page.len()),
        bad_request(page).body == page,
{
    let headers = bad_request(page).headers;
    let kind = "Content-Type";
    let length = "Content-Length";
    reveal_strlit("Content-Type");
    reveal_strlit("Content-Length");
    assert(vstd::string::is_ascii(kind));
    assert(vstd::string::is_ascii(length));
    vstd::string::is_ascii_spec_bytes(kind);
    vstd::string::is_ascii_spec_bytes(length);
    let name = content_length_name();
    let rest = headers.drop_first();
    assert(headers[0].name.len() == 12);
    assert(name.len() == 14);
    assert(!eq_ignore_case(headers[0].name, name));
    assert(rest[0] == headers[1]);
    assert(eq_ignore_case(rest[0].name, name));
    assert(find_header(rest, name) == Some(headers[1].value));
    assert(find_header(headers, name) == find_header(rest, name));
    lemma_decimal_round_trip(page.len());
}

/// The 400 response, byte for byte: the status line, the two headers, a
/// blank line, and the page as it was given.
pub proof fn law_bad_request_bytes(page: Seq<u8>)
    ensures
        serialize(bad_request(page))
            == "HTTP/1.1 400 Bad Request\r\nContent-Type: text/html\r\nContent-Length: ".spec_bytes()
            + decimal_digits(page.len()) + seq![CR, LF, CR, LF] + page,
{
    let head = "HTTP/1.1 400 Bad Request\r\nContent-Type: text/html\r\nContent-Length: ";
    reveal_strlit("HTTP/1.1 400 Bad Request\r\nContent-Type: text/html\r\nContent-Length: ");
    reveal_strlit("HTTP/1.1");
    reveal_strlit("Bad Request");
    reveal_strlit("Content-Type");
    reveal_strlit("text/html");
    reveal_strlit("Content-Length");
    assert(vstd::string::is_ascii(head));
    assert(vstd::string::is_ascii("HTTP/1.1"));
    assert(vstd::string::is_ascii("Bad Request"));
    assert(vstd::string::is_ascii("Content-Type"));
    assert(vstd::string::is_ascii("text/html"));
    assert(vstd::string::is_ascii("Content-Length"));
    vstd::string::is_ascii_spec_bytes(head);
    vstd::string::is_ascii_spec_bytes("HTTP/1.1");
    vstd::string::is_ascii_spec_bytes("Bad Request");
    vstd::string::is_ascii_spec_bytes("Content-Type");
    vstd::string::is_ascii_spec_bytes("text/html");
    vstd::string::is_ascii_spec_bytes("Content-Length");
    let r = bad_request(page);
    let digits = decimal_digits(page.len());
    assert(decimal_digits(400) =~= seq![52u8, 48u8, 48u8]) by {
        reveal_with_fuel(decimal_digits, 3);
    }
    assert(status_line(r.status) =~= "HTTP/1.1 400 Bad Request\r\n".spec_bytes()) by {
        reveal_strlit("HTTP/1.1 400 Bad Request\r\n");
        assert(vstd::string::is_ascii("HTTP/1.1 400 Bad Request\r\n"));
        vstd::string::is_ascii_spec_bytes("HTTP/1.1 400 Bad Request\r\n");
    }
    assert(lines_of_headers(r.headers) == line_of_header(r.headers[0]) + line_of_header(
        r.headers[1],
    )) by {
        let one = r.headers.drop_last();
        assert(one.drop_last() =~= Seq::empty());
        assert(lines_of_headers(one.drop_last()) =~= Seq::empty());
        assert(lines_of_headers(one) =~= line_of_header(r.headers[0]));
    }
    assert(serialize(r) =~= head.spec_bytes() + digits + seq![CR, LF, CR, LF] + page) by {
        reveal_strlit("HTTP/1.1 400 Bad Request\r\n");
        assert(vstd::string::is_ascii("HTTP/1.1 400 Bad Request\r\n"));
        vstd::string::is_ascii_spec_bytes("HTTP/1.1 400 Bad Request\r\n");
    }
}

} // verus!
