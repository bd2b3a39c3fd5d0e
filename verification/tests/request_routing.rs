use thread_pool::request::route_request;

#[test]
fn root_request_is_recognised() {
    let buffer = b"GET / HTTP/1.1\r\nHost: localhost:8080\r\n\r\n";
    assert!(route_request(buffer));
}

#[test]
fn exact_request_line_is_enough() {
    let buffer = b"GET / HTTP/1.1\r\n";
    assert!(route_request(buffer));
}

#[test]
fn other_method_is_not_the_root_request() {
    let buffer = b"POST / HTTP/1.1\r\nHost: localhost:8080\r\n\r\n";
    assert!(!route_request(buffer));
}

#[test]
fn other_path_is_not_the_root_request() {
    let buffer = b"GET /favicon.ico HTTP/1.1\r\n";
    assert!(!route_request(buffer));
}

#[test]
fn short_buffer_is_not_the_root_request() {
    let buffer = b"GET /";
    assert!(!route_request(buffer));
}

#[test]
fn empty_buffer_is_not_the_root_request() {
    let buffer: [u8; 1024] = [0; 1024];
    assert!(!route_request(&buffer));
}

#[test]
fn padded_read_buffer_is_recognised() {
    // what a fixed-size read buffer looks like after a short read
    let mut buffer: [u8; 1024] = [0; 1024];
    let line = b"GET / HTTP/1.1\r\n";
    buffer[..line.len()].copy_from_slice(line);
    assert!(route_request(&buffer));
}
