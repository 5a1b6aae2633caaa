use skanda_engine::text::is_whitespace;

#[test]
fn white_space_agrees_with_std() {
    for v in 0u32..=0x10FFFF {
        if let Some(c) = char::from_u32(v) {
            assert_eq!(is_whitespace(c), c.is_whitespace(), "{:#x}", v);
        }
    }
}

#[test]
fn an_ideographic_space_separates_request_fields() {
    match skanda_engine::skanda::bridge::route_request("GET\u{3000}/search?q=x") {
        Some(skanda_engine::skanda::bridge::Reply::Search { query, fuzzy }) => {
            assert_eq!(query, "x");
            assert!(!fuzzy);
        }
        _ => panic!("a search request"),
    }
}
