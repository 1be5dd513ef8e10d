use minihttp::protocol::StatusCode;
use minihttp::response::Response;
use minihttp::router::Return;

fn text(res: &Response) -> String {
    String::from_utf8(res.wire().clone()).unwrap()
}

#[test]
fn new_response_is_fresh() {
    let res = Response::new();
    assert_eq!(res.status.to_u16(), 200);
    assert_eq!(res.headers.len(), 0);
    assert!(res.wire().is_empty());
    assert!(!res.is_header_written());
    assert!(!res.is_body_written());
}

#[test]
fn head_is_status_line_and_header_lines() {
    let mut res = Response::new();
    res.status(StatusCode::NotFound).content_type("text/plain");
    res.headers.append("Set-Cookie".to_string(), "a=1".to_string());
    res.headers.append("Set-Cookie".to_string(), "b=2".to_string());
    assert_eq!(res.send_headers(), Ok(Return::End));
    assert_eq!(
        text(&res),
        "HTTP/1.1 404 Not Found\r\nContent-Type: text/plain\r\nSet-Cookie: a=1\r\nSet-Cookie: b=2\r\n"
    );
    assert!(res.is_header_written());
    assert!(!res.is_body_written());
}

#[test]
fn head_is_sent_once() {
    let mut res = Response::new();
    assert_eq!(res.send_headers(), Ok(Return::End));
    assert_eq!(text(&res), "HTTP/1.1 200 OK\r\n");
    res.status(StatusCode::Created);
    res.content_type("text/html");
    assert_eq!(res.send_headers(), Ok(Return::End));
    assert_eq!(text(&res), "HTTP/1.1 200 OK\r\n");
}

#[test]
fn body_follows_head_and_line_break() {
    let mut res = Response::new();
    res.content_type("text/plain");
    assert_eq!(res.send_body(b"hello".to_vec()), Ok(Return::End));
    assert_eq!(
        text(&res),
        "HTTP/1.1 200 OK\r\nContent-Type: text/plain\r\nContent-Length: 5\r\n\r\nhello"
    );
    assert!(res.is_header_written());
    assert!(res.is_body_written());
    assert_eq!(res.headers.get("Content-Length"), Some(&"5".to_string()));
}

#[test]
fn body_is_sent_once() {
    let mut res = Response::new();
    assert_eq!(res.send_body(Vec::new()), Ok(Return::End));
    assert_eq!(text(&res), "HTTP/1.1 200 OK\r\nContent-Length: 0\r\n\r\n");
    assert_eq!(res.send_body(b"more".to_vec()), Ok(Return::End));
    assert_eq!(text(&res), "HTTP/1.1 200 OK\r\nContent-Length: 0\r\n\r\n");
    assert_eq!(res.headers.get("Content-Length"), Some(&"0".to_string()));
}

#[test]
fn body_after_head_does_not_repeat_the_head() {
    let mut res = Response::new();
    res.status(StatusCode::Other(299, "Fine".to_string()));
    assert_eq!(res.send_headers(), Ok(Return::End));
    assert_eq!(res.send_body(vec![0xff, 0x00, b'\n']), Ok(Return::End));
    let mut expected = b"HTTP/1.1 299 Fine\r\n\r\n".to_vec();
    expected.extend_from_slice(&[0xff, 0x00, b'\n']);
    assert_eq!(res.wire(), &expected);
    assert_eq!(res.headers.get("Content-Length"), Some(&"3".to_string()));
}

#[test]
fn content_length_replaces_an_earlier_one() {
    let mut res = Response::new();
    res.headers.set("Content-Length".to_string(), "999".to_string());
    res.headers.set("X".to_string(), "\u{e9}".to_string());
    assert_eq!(res.send_body(vec![b'x'; 12]), Ok(Return::End));
    assert_eq!(
        text(&res),
        "HTTP/1.1 200 OK\r\nContent-Length: 12\r\nX: \u{e9}\r\n\r\nxxxxxxxxxxxx"
    );
}

#[test]
fn failure_is_answered_with_500() {
    let mut res = Response::new();
    res.status(StatusCode::Created);
    res.headers.set("X".to_string(), "y".to_string());
    assert_eq!(res.fail("no luck: \u{e9}".to_string()), Ok(Return::End));
    assert!(res.status == StatusCode::InternalServerError);
    assert_eq!(
        text(&res),
        "HTTP/1.1 500 Internal Server Error\r\nX: y\r\nContent-Type: text/plain\r\nContent-Length: 11\r\n\r\nno luck: \u{e9}"
    );
    assert!(res.is_header_written());
    assert!(res.is_body_written());
}

#[test]
fn failure_after_the_head_adds_only_the_body() {
    let mut res = Response::new();
    assert_eq!(res.send_headers(), Ok(Return::End));
    assert_eq!(res.fail("broken".to_string()), Ok(Return::End));
    assert_eq!(text(&res), "HTTP/1.1 200 OK\r\n\r\nbroken");
    assert!(res.status == StatusCode::InternalServerError);
    assert_eq!(res.headers.get("Content-Type"), Some(&"text/plain".to_string()));
    assert_eq!(res.headers.get("Content-Length"), Some(&"6".to_string()));
}

#[test]
fn failure_after_the_body_adds_nothing() {
    let mut res = Response::new();
    assert_eq!(res.send_body(b"done".to_vec()), Ok(Return::End));
    let sent = res.wire().clone();
    assert_eq!(res.fail("too late".to_string()), Ok(Return::End));
    assert_eq!(res.wire(), &sent);
    assert!(res.status == StatusCode::InternalServerError);
    assert_eq!(res.headers.get("Content-Type"), Some(&"text/plain".to_string()));
    assert_eq!(res.headers.get("Content-Length"), Some(&"4".to_string()));
}
