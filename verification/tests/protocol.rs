use minihttp::protocol::{StatusCode, HTTP_PROTOCOL};

#[test]
fn protocol_is_http_1_1() {
    assert_eq!(HTTP_PROTOCOL, "HTTP/1.1");
}

#[test]
fn table_gives_code_and_reason() {
    let table = [
        (StatusCode::Continue, 100, "Continue"),
        (StatusCode::SwitchingProtocols, 101, "Switching Protocols"),
        (StatusCode::Processing, 102, "Processing"),
        (StatusCode::EarlyHints, 103, "Early Hints"),
        (StatusCode::OK, 200, "OK"),
        (StatusCode::Created, 201, "Created"),
        (StatusCode::Accepted, 202, "Accepted"),
        (StatusCode::NonAuthoritativeInformation, 203, "Non Authoritative Information"),
        (StatusCode::NoContent, 204, "No Content"),
        (StatusCode::PartialContent, 206, "Partial Content"),
        (StatusCode::MultiStatus, 207, "Multi Status"),
        (StatusCode::AlreadyReported, 208, "Already Reported"),
        (StatusCode::IMUsed, 226, "IM Used"),
        (StatusCode::MultipleChoices, 300, "Multiple Choices"),
        (StatusCode::MovedPermanently, 301, "Moved Permanently"),
        (StatusCode::Found, 302, "Found"),
        (StatusCode::SeeOther, 303, "See Other"),
        (StatusCode::NotModified, 304, "Not Modified"),
        (StatusCode::UseProxy, 305, "Use Proxy"),
        (StatusCode::TemporaryRedirect, 307, "Temporary Redirect"),
        (StatusCode::PermanentRedirect, 308, "Permanent Redirect"),
        (StatusCode::BadRequest, 400, "Bad Request"),
        (StatusCode::Unauthorized, 401, "Unauthorized"),
        (StatusCode::PaymentRequired, 402, "Payment Required"),
        (StatusCode::Forbidden, 403, "Forbidden"),
        (StatusCode::NotFound, 404, "Not Found"),
        (StatusCode::MethodNotAllowed, 405, "Method Not Allowed"),
        (StatusCode::NotAcceptable, 406, "Not Acceptable"),
        (StatusCode::ProxyAuthenticationRequired, 407, "Proxy Authentication Required"),
        (StatusCode::RequestTimeout, 408, "Request Timeout"),
        (StatusCode::Conflict, 409, "Conflict"),
        (StatusCode::InternalServerError, 500, "Internal Server Error"),
        (StatusCode::NotImplemented, 501, "Not Implemented"),
        (StatusCode::BadGateway, 502, "Bad Gateway"),
        (StatusCode::ServiceUnavailable, 503, "Service Unavailable"),
        (StatusCode::GatewayTimeout, 504, "Gateway Timeout"),
        (StatusCode::HTTPVersionNotSupported, 505, "HTTP Version Not Supported"),
        (StatusCode::VariantAlsoNegotiates, 506, "Variant Also Negotiates"),
        (StatusCode::InsufficientStorage, 507, "Insufficient Storage"),
        (StatusCode::LoopDetected, 508, "Loop Detected"),
        (StatusCode::NotExtended, 510, "Not Extended"),
        (StatusCode::NetworkAuthenticationRequired, 511, "Network Authentication Required"),
    ];
    for (status, code, reason) in table.iter() {
        assert_eq!(status.to_u16(), *code);
        assert_eq!(status.reason_phrase(), *reason);
        assert_eq!(status.to_string(), code.to_string());
        assert_eq!(StatusCode::Other(*code, String::new()).reason_phrase(), *reason);
    }
}

#[test]
fn other_carries_its_own_reason() {
    let teapot = StatusCode::Other(418, "I'm a teapot".to_string());
    assert_eq!(teapot.to_u16(), 418);
    assert_eq!(teapot.reason_phrase(), "I'm a teapot");
    assert_eq!(teapot.to_string(), "418");

    let overridden = StatusCode::Other(404, "Gone fishing".to_string());
    assert_eq!(overridden.reason_phrase(), "Gone fishing");
}

#[test]
fn unlisted_code_without_reason_is_other() {
    assert_eq!(StatusCode::Other(418, String::new()).reason_phrase(), "Other");
    assert_eq!(StatusCode::Other(205, String::new()).reason_phrase(), "Other");
    assert_eq!(StatusCode::Other(0, String::new()).reason_phrase(), "Other");
}

#[test]
fn code_is_written_in_decimal() {
    assert_eq!(StatusCode::Other(0, String::new()).to_string(), "0");
    assert_eq!(StatusCode::Other(7, String::new()).to_string(), "7");
    assert_eq!(StatusCode::Other(10, String::new()).to_string(), "10");
    assert_eq!(StatusCode::Other(1009, String::new()).to_string(), "1009");
    assert_eq!(StatusCode::Other(65535, String::new()).to_string(), "65535");
}

#[test]
fn statuses_compare() {
    assert!(StatusCode::OK == StatusCode::OK);
    assert!(StatusCode::OK != StatusCode::Created);
    assert!(StatusCode::NotFound != StatusCode::Other(404, String::new()));
    assert!(StatusCode::Other(404, String::new()) != StatusCode::NotFound);
    assert!(StatusCode::Other(1, "a".to_string()) == StatusCode::Other(1, "a".to_string()));
    assert!(StatusCode::Other(1, "a".to_string()) != StatusCode::Other(2, "a".to_string()));
    assert!(StatusCode::Other(1, "a".to_string()) != StatusCode::Other(1, "b".to_string()));
    assert!(StatusCode::Accepted.clone() == StatusCode::Accepted);
}
