//! Verified core of an HTTP client that drives a native network engine.
//!
//! The library holds the parts of the client that are plain computation:
//! the fingerprint [`Seed`] and its 80-character hex form, the error type,
//! the checks made on arguments before they are handed to the engine, the
//! list of operations a request builder records, and the snapshot of a
//! response that the engine returned.

mod utf8_text;

pub mod error;
pub mod request;
pub mod response;
pub mod seed;

pub use error::ClawserError;
pub use request::RequestBuilder;
pub use response::Response;
pub use seed::Seed;
