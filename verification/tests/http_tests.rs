use threadkit::http::{body_after_head, head_cut_fits, skip_head, try_skip_head, extract_host, extract_url, find_double_crlf, http_get_request, parse_url};

#[test]
fn find_double_crlf_finds_end_of_head() {
    assert_eq!(find_double_crlf(b"GET / HTTP/1.0\r\n\r\nbody"), Some(18));
    assert_eq!(find_double_crlf(b"\r\n\r\n"), Some(4));
    assert_eq!(find_double_crlf(b"abc\r\n\r"), None);
    assert_eq!(find_double_crlf(b""), None);
    assert_eq!(find_double_crlf(b"a\r\n\r\nb\r\n\r\n"), Some(5));
}

#[test]
fn extract_url_takes_second_word_of_first_line() {
    assert_eq!(
        extract_url("GET http://example.com/index.html HTTP/1.0\r\nHost: example.com\r\n\r\n"),
        "http://example.com/index.html"
    );
    assert_eq!(extract_url("GET   /a\t HTTP/1.1"), "/a");
}

#[test]
fn extract_url_without_second_word_is_empty() {
    assert_eq!(extract_url(""), "");
    assert_eq!(extract_url("GET\r\n/x y"), "");
    assert_eq!(extract_url("   \n"), "");
}

#[test]
fn extract_url_strips_carriage_return() {
    assert_eq!(extract_url("GET /path\r\nrest"), "/path");
    assert_eq!(extract_url("GET /p\r"), "/p");
}

#[test]
fn extract_url_splits_on_unicode_space() {
    assert_eq!(extract_url("GET\u{3000}/wide\u{a0}tail"), "/wide");
}

#[test]
fn extract_host_drops_scheme_path_and_port() {
    assert_eq!(extract_host("http://example.com:8080/a/b"), "example.com");
    assert_eq!(extract_host("example.com/a"), "example.com");
    assert_eq!(extract_host("host"), "host");
    assert_eq!(extract_host("/only/path"), "");
    assert_eq!(extract_host(""), "");
    assert_eq!(extract_host("https://x/y"), "https");
}

#[test]
fn parse_url_splits_host_port_path() {
    let u = parse_url("http://example.com:8080/a/b?c");
    assert_eq!(u.host, "example.com");
    assert_eq!(u.port, 8080);
    assert_eq!(u.path, "/a/b?c");
}

#[test]
fn parse_url_defaults() {
    let u = parse_url("example.com");
    assert_eq!(u.host, "example.com");
    assert_eq!(u.port, 80);
    assert_eq!(u.path, "/");
}

#[test]
fn parse_url_bad_port_falls_back_to_eighty() {
    assert_eq!(parse_url("h:99999/").port, 80);
    assert_eq!(parse_url("h:abc").port, 80);
    assert_eq!(parse_url("h:").port, 80);
    assert_eq!(parse_url("h:-1").port, 80);
    assert_eq!(parse_url("h:+").port, 80);
}

#[test]
fn parse_url_port_accepts_plus_and_zeros() {
    assert_eq!(parse_url("h:+81").port, 81);
    assert_eq!(parse_url("h:0065535/x").port, 65535);
    assert_eq!(parse_url("h:0").port, 0);
}

#[test]
fn parse_url_agrees_with_std_parsing() {
    for p in ["1", "65535", "65536", "+7", "-7", "", "+", "08", "1a", "99999999999"] {
        let expected: u16 = p.parse().unwrap_or(80);
        let url = format!("http://h:{}/", p);
        assert_eq!(parse_url(&url).port, expected, "port text {:?}", p);
    }
}

#[test]
fn body_after_head_is_what_follows_the_blank_line() {
    assert_eq!(body_after_head(b"HTTP/1.0 200 OK\r\n\r\nhello"), Some(b"hello".to_vec()));
    assert_eq!(body_after_head(b"H\r\n\r\n"), Some(Vec::new()));
    assert_eq!(body_after_head(b"H\r\n"), None);
    assert!(head_cut_fits(b"HTTP/1.0 200 OK\r\n\r\nhello"));
}

#[test]
fn get_request_text() {
    assert_eq!(
        http_get_request("/a/b", "example.com"),
        b"GET /a/b HTTP/1.0\r\nHost: example.com\r\n\r\n".to_vec()
    );
}

#[test]
fn skip_head_drops_pieces_until_the_end_of_the_head() {
    let mut skipped = false;
    assert_eq!(skip_head(&mut skipped, b"HTTP/1.0 200 OK\r\n"), None);
    assert!(!skipped);
    assert_eq!(skip_head(&mut skipped, b"X: y\r\n\r\nhello"), Some(b"hello".to_vec()));
    assert!(skipped);
    assert_eq!(skip_head(&mut skipped, b"\r\n\r\nmore"), Some(b"\r\n\r\nmore".to_vec()));
    assert!(skipped);
}

#[test]
fn skip_head_takes_what_follows_the_first_blank_line() {
    let mut skipped = false;
    assert_eq!(skip_head(&mut skipped, b"A\r\n\r\nB\r\n\r\nC"), Some(b"B\r\n\r\nC".to_vec()));
    assert!(skipped);
}

#[test]
fn head_end_is_found_in_the_text_and_cut_from_the_bytes() {
    // The invalid byte reads as a three-byte replacement character, so the
    // head ends two bytes later in the text than in the bytes.
    let data: &[u8] = b"\xffab\r\n\r\nxyz";
    assert!(head_cut_fits(data));
    assert_eq!(body_after_head(data), Some(b"z".to_vec()));
    let mut skipped = false;
    assert_eq!(try_skip_head(&mut skipped, data), Some(Some(b"z".to_vec())));
    assert!(skipped);
}

#[test]
fn head_cut_past_the_end_is_refused() {
    let data: &[u8] = b"\xff\r\n\r\nx";
    assert!(!head_cut_fits(data));
    let mut skipped = false;
    assert_eq!(try_skip_head(&mut skipped, data), None);
    assert!(!skipped);
    let mut skipped = true;
    assert_eq!(try_skip_head(&mut skipped, data), Some(Some(data.to_vec())));
}
