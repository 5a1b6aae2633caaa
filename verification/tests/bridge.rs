use skanda_engine::skanda::bridge::{request_complete, route_head, route_request, Reply, MAX_HEAD_BYTES};

#[test]
fn a_request_head_ends_with_a_blank_line() {
    assert!(request_complete(b"GET / HTTP/1.1\r\nHost: x\r\n\r\n"));
    assert!(!request_complete(b"GET / HTTP/1.1\r\nHost: x\r\n"));
    assert!(!request_complete(b""));
    assert!(!request_complete(&vec![b'a'; MAX_HEAD_BYTES]));
    assert!(request_complete(&vec![b'a'; MAX_HEAD_BYTES + 1]));
}

fn search_of(request: &str) -> Option<(String, bool)> {
    match route_request(request) {
        Some(Reply::Search { query, fuzzy }) => Some((query, fuzzy)),
        _ => None,
    }
}

#[test]
fn a_search_request() {
    assert_eq!(
        search_of("GET /search?q=rust&fuzzy=true HTTP/1.1\r\nHost: localhost\r\n\r\n"),
        Some(("rust".to_string(), true))
    );
    assert_eq!(search_of("GET /search?q=rust HTTP/1.1\r\n\r\n"), Some(("rust".to_string(), false)));
    assert_eq!(search_of("GET /search?q=a%20b+c&x=1 HTTP/1.1"), Some(("a b c".to_string(), false)));
    assert_eq!(search_of("GET\t/search?q=x"), Some(("x".to_string(), false)));
}

#[test]
fn the_last_parameter_counts() {
    assert_eq!(
        search_of("GET /search?q=one&fuzzy=true&q=two&fuzzy=yes HTTP/1.1"),
        Some(("two".to_string(), false))
    );
}

#[test]
fn fixed_replies() {
    assert!(matches!(route_request("OPTIONS /search HTTP/1.1\r\n\r\n"), Some(Reply::Preflight)));
    assert!(matches!(route_request("POST /search HTTP/1.1\r\n\r\n"), Some(Reply::MethodNotAllowed)));
    assert!(matches!(route_request("get /search?q=x HTTP/1.1"), Some(Reply::MethodNotAllowed)));
    assert!(matches!(route_request("GET /other?q=x HTTP/1.1"), Some(Reply::NotFound)));
    assert!(matches!(route_request("GET /search HTTP/1.1"), Some(Reply::EmptyResults)));
    assert!(matches!(route_request("GET /search?q= HTTP/1.1"), Some(Reply::EmptyResults)));
    assert!(matches!(route_request("GET :99999999/search?q=x HTTP/1.1"), Some(Reply::BadRequest)));
}

#[test]
fn no_reply_without_a_method_and_a_target() {
    assert!(route_request("").is_none());
    assert!(route_request("GET").is_none());
    assert!(route_request("\r\nGET /search?q=x HTTP/1.1").is_none());
    assert!(route_request("   \n").is_none());
}

#[test]
fn a_request_head_read_as_bytes() {
    match route_head(b"GET /search?q=alice&fuzzy=true HTTP/1.1\r\n\r\n") {
        Some(Reply::Search { query, fuzzy }) => {
            assert_eq!(query, "alice");
            assert!(fuzzy);
        }
        _ => panic!("a search request"),
    }
    assert!(matches!(route_head(b"DELETE /search HTTP/1.1\r\n\r\n"), Some(Reply::MethodNotAllowed)));
    assert!(route_head(b"").is_none());
}

#[test]
fn the_documented_api_call() {
    assert_eq!(
        search_of("GET /search?q=footprint1+footprint2&fuzzy=true HTTP/1.1\r\nHost: localhost:8080\r\n\r\n"),
        Some(("footprint1 footprint2".to_string(), true))
    );
}
