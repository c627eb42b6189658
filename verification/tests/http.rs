use omnistor::console::Response;
use omnistor::http::{body_to_read, read_header, read_request_line, response_text, HeaderLine};

#[test]
fn request_lines() {
    assert_eq!(
        read_request_line("GET /api/cluster HTTP/1.1\r\n"),
        Some(("GET".to_string(), "/api/cluster".to_string()))
    );
    assert_eq!(
        read_request_line("  POST\t/x\n"),
        Some(("POST".to_string(), "/x".to_string()))
    );
    assert_eq!(read_request_line("GET\r\n"), None);
    assert_eq!(read_request_line(""), None);
    assert_eq!(read_request_line(" \r\n"), None);
}

#[test]
fn header_lines() {
    assert_eq!(read_header("\r\n"), HeaderLine::End);
    assert_eq!(read_header(""), HeaderLine::End);
    assert_eq!(read_header("Host: x\r\n"), HeaderLine::Other);
    assert_eq!(read_header("Content-Length: 31\r\n"), HeaderLine::Length(31));
    assert_eq!(read_header("CONTENT-LENGTH:7"), HeaderLine::Length(7));
    assert_eq!(read_header("content-length: x\r\n"), HeaderLine::Length(0));
    assert_eq!(read_header("content-length:\r\n"), HeaderLine::Length(0));
    assert_eq!(read_header(" content-length: 3\r\n"), HeaderLine::Other);
    assert_eq!(
        read_header("content-length: 99999999999999999999999\r\n"),
        HeaderLine::Length(0)
    );
}

#[test]
fn bodies_are_limited() {
    assert_eq!(body_to_read(0), 0);
    assert_eq!(body_to_read(1 << 20), 1 << 20);
    assert_eq!(body_to_read((1 << 20) + 1), 1 << 20);
}

#[test]
fn responses_on_the_wire() {
    let reasons = [
        (200, "OK"),
        (201, "Created"),
        (400, "Bad Request"),
        (404, "Not Found"),
        (429, "Too Many Requests"),
        (507, "Insufficient Storage"),
        (500, "Internal Server Error"),
        (302, "Internal Server Error"),
    ];
    for (status, reason) in reasons {
        let r = Response {
            status,
            content_type: "text/plain",
            body: "né".to_string(),
        };
        assert_eq!(
            response_text(&r),
            format!(
                "HTTP/1.1 {status} {reason}\r\nContent-Type: text/plain\r\n\
                 Content-Length: 3\r\nConnection: close\r\n\r\nné"
            )
        );
    }
}
