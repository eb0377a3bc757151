use kvstore::http::{command_of_request, request_body};
use kvstore::utils::commands::Command;

#[test]
fn body_follows_the_blank_line() {
    assert_eq!(request_body("POST / HTTP/1.1\r\nHost: x\r\n\r\nget k").unwrap(), "get k");
    assert_eq!(request_body("POST / HTTP/1.1\r\n\r\nget k\0\0\0").unwrap(), "get k");
    assert_eq!(request_body("no blank line").unwrap(), "");
    assert!(request_body("\0\r\n\r\nget k").is_none());
}

#[test]
fn command_of_request_decodes_bytes() {
    let mut buffer = b"POST / HTTP/1.1\r\n\r\nset a b".to_vec();
    buffer.resize(64, 0);
    assert_eq!(
        command_of_request(&buffer),
        Some(Command::SetValue("a".to_string(), "b".to_string()))
    );
    let mut bad = b"POST / HTTP/1.1\r\n\r\nget \xff".to_vec();
    bad.resize(32, 0);
    assert_eq!(command_of_request(&bad), Some(Command::Get("\u{fffd}".to_string())));
    assert_eq!(command_of_request(b"POST / HTTP/1.1\r\n\r\nincr a b"), None);
}
