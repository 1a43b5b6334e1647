use vstd::prelude::*;
use vstd::string::*;

verus! {

/// The errors the client reports.
#[derive(Debug)]
pub enum ClawserError {
    /// The engine could not create a session; carries the engine's last error.
    InitFailed(String),
    /// An argument cannot be handed to the engine.
    InvalidArgument(String),
    /// The engine could not complete a request; carries the engine's last error.
    Network(String),
    /// The request timed out.
    Timeout,
    /// The engine returned no object where one was expected.
    NullPointer,
    /// A response body is not valid UTF-8.
    InvalidUtf8,
}

/// The human-readable text of an error, as its `Display` form shows it.
pub open spec fn error_message(e: ClawserError) -> Seq<char> {
    match e {
        ClawserError::InitFailed(s) => "Session initialization failed: "@ + s@,
        ClawserError::InvalidArgument(s) => "Invalid argument: "@ + s@,
        ClawserError::Network(s) => "Network error: "@ + s@,
        ClawserError::Timeout => "Request timed out"@,
        ClawserError::NullPointer => "Null pointer returned from native library"@,
        ClawserError::InvalidUtf8 => "Invalid UTF-8 in response body"@,
    }
}

impl ClawserError {
    /// The text of this error (what `to_string` gives for it).
    pub fn message(&self) -> (res: String)
        ensures
            res@ == error_message(*self),
    {
        match self {
            ClawserError::InitFailed(s) => {
                let mut m = "Session initialization failed: ".to_owned();
                m.append(s.as_str());
                m
            },
            ClawserError::InvalidArgument(s) => {
                let mut m = "Invalid argument: ".to_owned();
                m.append(s.as_str());
                m
            },
            ClawserError::Network(s) => {
                let mut m = "Network error: ".to_owned();
                m.append(s.as_str());
                m
            },
            ClawserError::Timeout => "Request timed out".to_owned(),
            ClawserError::NullPointer => "Null pointer returned from native library".to_owned(),
            ClawserError::InvalidUtf8 => "Invalid UTF-8 in response body".to_owned(),
        }
    }
}

/// The text reported for the engine's last error: the engine's own message,
/// or "unknown error" when the engine has none.
pub fn last_error_message(raw: Option<String>) -> (res: String)
    ensures
        match raw {
            Some(s) => res@ == s@,
            None => res@ == "unknown error"@,
        },
{
    match raw {
        Some(s) => s,
        None => "unknown error".to_owned(),
    }
}

} // verus!
