use clawser_fetch::error::last_error_message;
use clawser_fetch::ClawserError;

#[test]
fn messages_follow_each_variant() {
    assert_eq!(
        ClawserError::InitFailed("boom".to_string()).message(),
        "Session initialization failed: boom"
    );
    assert_eq!(
        ClawserError::InvalidArgument("url contains null byte".to_string()).message(),
        "Invalid argument: url contains null byte"
    );
    assert_eq!(ClawserError::Network("reset".to_string()).message(), "Network error: reset");
    assert_eq!(ClawserError::Timeout.message(), "Request timed out");
    assert_eq!(ClawserError::NullPointer.message(), "Null pointer returned from native library");
    assert_eq!(ClawserError::InvalidUtf8.message(), "Invalid UTF-8 in response body");
}

#[test]
fn last_error_message_falls_back_to_unknown() {
    assert_eq!(last_error_message(None), "unknown error");
    assert_eq!(last_error_message(Some("dns failure".to_string())), "dns failure");
    assert_eq!(last_error_message(Some(String::new())), "");
}
