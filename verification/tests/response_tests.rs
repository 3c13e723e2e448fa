use tinyserve::response::{build_header, dec_string, Status};

#[test]
fn decimal_strings() {
    assert_eq!(dec_string(0), "0");
    assert_eq!(dec_string(5), "5");
    assert_eq!(dec_string(10), "10");
    assert_eq!(dec_string(907), "907");
    assert_eq!(dec_string(1234), "1234");
}

#[test]
fn success_header_exact() {
    assert_eq!(
        build_header(Status::Success, 5),
        "HTTP/1.1 200 OK\r\nContent-Length: 5\r\n\r\n"
    );
}

#[test]
fn not_found_header_exact() {
    assert_eq!(
        build_header(Status::NotFound, 0),
        "HTTP/1.1 404 NOT FOUND\r\nContent-Length: 0\r\n\r\n"
    );
}

#[test]
fn success_response_carries_body() {
    let body = "<html>index</html>";
    let mut response = build_header(Status::Success, body.len());
    response.push_str(body);
    assert!(response.starts_with("HTTP/1.1 200 OK"));
    assert!(response.ends_with(body));
    assert!(response.contains(&format!("Content-Length: {}", body.len())));
}
