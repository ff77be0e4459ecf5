use threadkit::cache::{Cache, CacheEntry};
use threadkit::select_proxy::{ClientState, Proxy as SelectProxy, ReadEvent, RequestAction};
use threadkit::threaded_proxy::{bad_gateway, ClientSession, Proxy, Route};

#[test]
fn cache_insert_then_get() {
    let mut c = Cache::new();
    let url = "http://a/".to_string();
    assert!(c.get(&url).is_none());
    c.insert(url.clone(), CacheEntry { headers: b"H".to_vec(), data: b"D".to_vec() });
    let e = c.get(&url).unwrap();
    assert_eq!(e.headers, b"H".to_vec());
    assert_eq!(e.data, b"D".to_vec());
    c.insert(url.clone(), CacheEntry { headers: Vec::new(), data: b"E".to_vec() });
    assert_eq!(c.get(&url).unwrap().data, b"E".to_vec());
    assert!(c.get(&"http://b/".to_string()).is_none());
}

#[test]
fn bad_gateway_reply_text() {
    assert_eq!(bad_gateway(), b"HTTP/1.0 502 Bad Gateway\r\n\r\n".to_vec());
}

#[test]
fn session_fetches_then_serves_from_cache() {
    let mut proxy = Proxy::new();
    let mut s = ClientSession::new();
    assert!(!s.on_request_data(b"GET http://example.com/x HTTP/1.0\r\n"));
    assert!(s.on_request_data(b"\r\n"));
    match s.route(&proxy.cache) {
        Route::Fetch(host) => assert_eq!(host, "example.com"),
        Route::Cached(_) => panic!("empty cache"),
    }
    assert_eq!(s.request(), &b"GET http://example.com/x HTTP/1.0\r\n\r\n".to_vec());
    s.on_server_data(b"HTTP/1.0 200 OK\r\n\r\n");
    s.on_server_data(b"hi");
    s.store_response(&mut proxy.cache);

    let mut t = ClientSession::new();
    assert!(t.on_request_data(b"GET http://example.com/x HTTP/1.0\r\n\r\n"));
    match t.route(&proxy.cache) {
        Route::Cached(data) => assert_eq!(data, b"HTTP/1.0 200 OK\r\n\r\nhi".to_vec()),
        Route::Fetch(_) => panic!("should be cached"),
    }
}

#[test]
fn select_proxy_reads_until_head_then_connects() {
    let proxy = SelectProxy::new();
    let mut c = ClientState::new();
    let a = proxy.handle_request(&mut c, ReadEvent::Data(b"GET http://h:81/p HTTP/1.0\r\n".to_vec()));
    assert!(matches!(a, RequestAction::Nothing));
    let a = proxy.handle_request(&mut c, ReadEvent::WouldBlock);
    assert!(matches!(a, RequestAction::Nothing));
    let a = proxy.handle_request(&mut c, ReadEvent::Data(b"\r\n".to_vec()));
    match a {
        RequestAction::Connect { host, request } => {
            assert_eq!(host, "h");
            assert_eq!(request, b"GET http://h:81/p HTTP/1.0\r\n\r\n".to_vec());
        }
        _ => panic!("expected a connect"),
    }
    assert_eq!(c.server_fd(), None);
    proxy.server_connected(&mut c, 7);
    assert_eq!(c.server_fd(), Some(7));
    assert!(!c.is_done());
    let a = proxy.handle_request(&mut c, ReadEvent::Closed);
    assert!(matches!(a, RequestAction::Nothing));
    assert!(!c.is_done());
}

#[test]
fn select_proxy_serves_cached_head_and_data() {
    let mut proxy = SelectProxy::new();
    proxy.cache.insert("/c".to_string(), CacheEntry { headers: b"H".to_vec(), data: b"D".to_vec() });
    let mut c = ClientState::new();
    match proxy.handle_request(&mut c, ReadEvent::Data(b"GET /c HTTP/1.0\r\n\r\n".to_vec())) {
        RequestAction::ServeCached { headers, data } => {
            assert_eq!(headers, b"H".to_vec());
            assert_eq!(data, b"D".to_vec());
        }
        _ => panic!("expected cached"),
    }
}

#[test]
fn select_proxy_closed_or_failed_client_is_done() {
    let proxy = SelectProxy::new();
    let mut c = ClientState::new();
    proxy.handle_request(&mut c, ReadEvent::Closed);
    assert!(c.is_done());
    let mut d = ClientState::new();
    proxy.handle_request(&mut d, ReadEvent::Failed);
    assert!(d.is_done());
    let mut e = ClientState::new();
    proxy.handle_request(&mut e, ReadEvent::Data(b"GET /x HTTP/1.0\r\n\r\n".to_vec()));
    proxy.server_unreachable(&mut e);
    assert!(e.is_done());
}

#[test]
fn route_text_uses_the_given_text() {
    let mut cache = Cache::new();
    cache.insert("/hit".to_string(), CacheEntry { headers: Vec::new(), data: b"cached".to_vec() });
    let mut s = ClientSession::new();
    match s.route_text("GET /hit HTTP/1.0\r\n\r\n", &cache) {
        Route::Cached(data) => assert_eq!(data, b"cached".to_vec()),
        Route::Fetch(_) => panic!("should be cached"),
    }
    let mut t = ClientSession::new();
    match t.route_text("GET http://other.org:8080/miss HTTP/1.0\r\n\r\n", &cache) {
        Route::Fetch(host) => assert_eq!(host, "other.org"),
        Route::Cached(_) => panic!("should miss"),
    }
}

#[test]
fn route_head_connects_with_the_whole_buffer() {
    let proxy = SelectProxy::new();
    let mut c = ClientState::new();
    let a = proxy.handle_request(&mut c, ReadEvent::Data(b"GET /a HTTP/1.0".to_vec()));
    assert!(matches!(a, RequestAction::Nothing));
    match proxy.route_head(&mut c, "GET http://example.net/a HTTP/1.0\r\n\r\n") {
        RequestAction::Connect { host, request } => {
            assert_eq!(host, "example.net");
            assert_eq!(request, b"GET /a HTTP/1.0".to_vec());
        }
        _ => panic!("expected a connect"),
    }
}

#[test]
fn select_proxy_invalid_utf8_in_head_is_replaced() {
    let proxy = SelectProxy::new();
    let mut c = ClientState::new();
    match proxy.handle_request(&mut c, ReadEvent::Data(b"GET http://h\xff/x HTTP/1.0\r\n\r\n".to_vec())) {
        RequestAction::Connect { host, .. } => assert_eq!(host, "h\u{fffd}"),
        _ => panic!("expected a connect"),
    }
}

#[test]
fn only_a_client_still_sending_its_request_wants_reads() {
    let proxy = SelectProxy::new();
    let mut c = ClientState::new();
    assert!(c.wants_read());
    proxy.handle_request(&mut c, ReadEvent::Data(b"GET /x HTTP/1.0\r\n\r\n".to_vec()));
    assert!(!c.wants_read());
    proxy.server_connected(&mut c, 3);
    assert!(!c.wants_read());
}
