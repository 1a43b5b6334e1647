use std::collections::HashMap;

use clawser_fetch::{ClawserError, Response};

fn some(s: &str) -> Option<String> {
    Some(s.to_string())
}

fn plain(code: i32) -> Response {
    Response::from_parts(code, Vec::new(), None, None)
}

#[test]
fn status_keeps_ordinary_codes() {
    assert_eq!(plain(200).status(), 200);
    assert_eq!(plain(404).status(), 404);
    assert_eq!(plain(0).status(), 0);
}

#[test]
fn status_wraps_like_a_cast_to_u16() {
    assert_eq!(plain(-1).status(), 65535);
    assert_eq!(plain(65536 + 200).status(), 200);
    assert_eq!(plain(i32::MIN).status(), 0);
    assert_eq!(plain(i32::MAX).status(), 65535);
    assert_eq!(plain(-65536 - 56).status(), (-56i32) as u16);
}

#[test]
fn headers_skip_missing_names_and_values() {
    let r = Response::from_parts(
        200,
        vec![
            (some("content-type"), some("text/html")),
            (None, some("orphan")),
            (some("x-missing"), None),
            (None, None),
        ],
        None,
        None,
    );
    let h: HashMap<String, String> = r.headers().into_iter().collect();
    let mut want = HashMap::new();
    want.insert("content-type".to_string(), "text/html".to_string());
    assert_eq!(h, want);
}

#[test]
fn headers_keep_the_last_value_of_a_name() {
    let r = Response::from_parts(
        200,
        vec![
            (some("set-cookie"), some("a=1")),
            (some("server"), some("x")),
            (some("set-cookie"), some("b=2")),
        ],
        None,
        None,
    );
    let pairs = r.headers();
    assert_eq!(pairs.len(), 2);
    let h: HashMap<String, String> = pairs.into_iter().collect();
    assert_eq!(h.get("set-cookie").map(|s| s.as_str()), Some("b=2"));
    assert_eq!(h.get("server").map(|s| s.as_str()), Some("x"));
}

#[test]
fn headers_of_no_entries_are_empty() {
    assert!(plain(200).headers().is_empty());
}

#[test]
fn body_is_empty_when_engine_gave_none() {
    assert_eq!(plain(200).body(), &[] as &[u8]);
    let r = Response::from_parts(200, Vec::new(), Some(vec![1, 2, 3]), None);
    assert_eq!(r.body(), &[1, 2, 3]);
}

#[test]
fn text_decodes_utf8_body() {
    let r = Response::from_parts(200, Vec::new(), Some("h\u{e9}llo".as_bytes().to_vec()), None);
    assert_eq!(r.text().unwrap(), "h\u{e9}llo");
    assert_eq!(plain(200).text().unwrap(), "");
}

#[test]
fn text_refuses_invalid_utf8() {
    let r = Response::from_parts(200, Vec::new(), Some(vec![0x68, 0xff, 0x69]), None);
    assert!(matches!(r.text(), Err(ClawserError::InvalidUtf8)));
    let r = Response::from_parts(200, Vec::new(), Some(vec![0xed, 0xa0, 0x80]), None);
    assert!(matches!(r.text(), Err(ClawserError::InvalidUtf8)));
}

#[test]
fn url_is_empty_when_engine_gave_none() {
    assert_eq!(plain(200).url(), "");
    let r = Response::from_parts(200, Vec::new(), None, some("https://example.com/page2"));
    assert_eq!(r.url(), "https://example.com/page2");
}
