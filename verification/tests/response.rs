use mini_http::header::{lookup, Header};
use mini_http::response::{Response, StatusCode};

#[test]
fn status_codes_have_their_numbers() {
    assert_eq!(StatusCode::Success.code(), 200);
    assert_eq!(StatusCode::BadRequest.code(), 400);
    assert_eq!(StatusCode::NotFound.code(), 404);
    assert_eq!(StatusCode::MethodNotAllowed.code(), 405);
    assert_eq!(StatusCode::InternalServerError.code(), 500);
}

#[test]
fn status_codes_have_their_phrases() {
    assert_eq!(StatusCode::Success.reason(), "OK");
    assert_eq!(StatusCode::BadRequest.reason(), "Bad Request");
    assert_eq!(StatusCode::NotFound.reason(), "Not Found");
    assert_eq!(StatusCode::MethodNotAllowed.reason(), "Method Not Allowed");
    assert_eq!(StatusCode::InternalServerError.reason(), "Internal Server Error");
}

#[test]
fn response_without_headers_is_serialized() {
    let response = Response { status: StatusCode::Success, headers: Vec::new(), body: Vec::new() };
    assert_eq!(response.serialize(), b"HTTP/1.1 200 OK\r\n\r\n".to_vec());
}

#[test]
fn response_is_serialized_in_order() {
    let response = Response {
        status: StatusCode::NotFound,
        headers: vec![Header::new(b"Content-Type", b"text/plain"), Header::new(b"X-A", b"b c")],
        body: b"nothing here\r\n".to_vec(),
    };
    assert_eq!(
        response.serialize(),
        b"HTTP/1.1 404 Not Found\r\nContent-Type: text/plain\r\nX-A: b c\r\n\r\nnothing here\r\n"
            .to_vec()
    );
}

#[test]
fn every_status_line_is_written() {
    let line = |status: StatusCode| {
        Response { status, headers: Vec::new(), body: Vec::new() }.serialize()
    };
    assert_eq!(line(StatusCode::BadRequest), b"HTTP/1.1 400 Bad Request\r\n\r\n".to_vec());
    assert_eq!(
        line(StatusCode::MethodNotAllowed),
        b"HTTP/1.1 405 Method Not Allowed\r\n\r\n".to_vec()
    );
    assert_eq!(
        line(StatusCode::InternalServerError),
        b"HTTP/1.1 500 Internal Server Error\r\n\r\n".to_vec()
    );
}

#[test]
fn bad_request_carries_the_page() {
    let response = Response::bad_request(b"<p>no</p>");
    assert_eq!(response.status, StatusCode::BadRequest);
    assert_eq!(
        response.headers,
        vec![Header::new(b"Content-Type", b"text/html"), Header::new(b"Content-Length", b"9")]
    );
    assert_eq!(response.body, b"<p>no</p>".to_vec());
}

#[test]
fn bad_request_bytes_are_fixed() {
    assert_eq!(
        Response::bad_request(b"<p>no</p>").serialize(),
        b"HTTP/1.1 400 Bad Request\r\nContent-Type: text/html\r\nContent-Length: 9\r\n\r\n<p>no</p>"
            .to_vec()
    );
    assert_eq!(
        Response::bad_request(b"").serialize(),
        b"HTTP/1.1 400 Bad Request\r\nContent-Type: text/html\r\nContent-Length: 0\r\n\r\n".to_vec()
    );
}

#[test]
fn bad_request_announces_the_length_of_a_long_page() {
    let page = vec![b'x'; 12345];
    let response = Response::bad_request(&page);
    assert_eq!(lookup(&response.headers, b"content-length"), Some(&b"12345".to_vec()));
    let bytes = response.serialize();
    assert!(bytes.ends_with(&page));
    assert_eq!(bytes.len(), b"HTTP/1.1 400 Bad Request\r\nContent-Type: text/html\r\nContent-Length: 12345\r\n\r\n".len() + 12345);
}
