use clawser_fetch::request::{check_config_path, check_request_args, contains_nul, RequestOp};
use clawser_fetch::{ClawserError, RequestBuilder};

fn invalid_argument_text(r: Result<(), ClawserError>) -> String {
    match r {
        Err(ClawserError::InvalidArgument(m)) => m,
        other => panic!("expected an invalid argument, got {:?}", other),
    }
}

#[test]
fn contains_nul_finds_interior_nul() {
    assert!(contains_nul("a\0b"));
    assert!(contains_nul("\0"));
    assert!(!contains_nul(""));
    assert!(!contains_nul("https://example.com"));
}

#[test]
fn request_args_without_nul_are_accepted() {
    assert!(check_request_args("GET", "https://example.com").is_ok());
    assert!(check_request_args("", "").is_ok());
}

#[test]
fn request_method_with_nul_is_refused_first() {
    let m = invalid_argument_text(check_request_args("GE\0T", "u\0rl"));
    assert_eq!(m, "method contains null byte");
}

#[test]
fn request_url_with_nul_is_refused() {
    let m = invalid_argument_text(check_request_args("POST", "https://a\0b"));
    assert_eq!(m, "url contains null byte");
}

#[test]
fn config_path_with_nul_is_refused() {
    assert!(check_config_path("/etc/profile.json").is_ok());
    let m = invalid_argument_text(check_config_path("/etc/\0profile.json"));
    assert_eq!(m, "path contains null byte");
}

fn describe(ops: &[RequestOp]) -> Vec<String> {
    ops.iter()
        .map(|op| match op {
            RequestOp::Header(n, v) => format!("header {}={}", n, v),
            RequestOp::Body(b) => format!("body {:?}", b),
            RequestOp::MaxRedirects(n) => format!("redirects {}", n),
            RequestOp::TimeoutMs(ms) => format!("timeout {}", ms),
        })
        .collect()
}

#[test]
fn builder_records_settings_in_order() {
    let b = RequestBuilder::new()
        .header("Authorization", "Bearer my-token")
        .max_redirects(3)
        .timeout_ms(5000)
        .body(&[1, 2, 3]);
    assert_eq!(
        describe(&b.into_ops()),
        vec![
            "header Authorization=Bearer my-token".to_string(),
            "redirects 3".to_string(),
            "timeout 5000".to_string(),
            "body [1, 2, 3]".to_string(),
        ]
    );
}

#[test]
fn header_with_nul_is_left_out() {
    let b = RequestBuilder::new()
        .header("X-Bad\0", "v")
        .header("X-Good", "v\0")
        .header("X-Custom", "value");
    assert_eq!(describe(&b.into_ops()), vec!["header X-Custom=value".to_string()]);
}

#[test]
fn json_sets_content_type_then_body() {
    let b = RequestBuilder::new().json(r#"{"key": "value"}"#);
    let ops = b.into_ops();
    assert_eq!(ops.len(), 2);
    match &ops[0] {
        RequestOp::Header(n, v) => {
            assert_eq!(n, "Content-Type");
            assert_eq!(v, "application/json");
        }
        _ => panic!("first setting is not the header"),
    }
    match &ops[1] {
        RequestOp::Body(b) => assert_eq!(b.as_slice(), br#"{"key": "value"}"#),
        _ => panic!("second setting is not the body"),
    }
}

#[test]
fn new_builder_has_no_settings() {
    assert!(RequestBuilder::new().into_ops().is_empty());
}
