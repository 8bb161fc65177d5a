//! A minimal client library for a text-based request/response key-value
//! store protocol carried over a reliable byte stream.
//!
//! The core is the wire-protocol codec: [`encode::create_command`] turns an
//! ordered list of byte-string arguments into a request frame, and
//! [`decode::decode`] parses a reply frame — a scalar, an error, or an
//! arbitrarily nested array — out of a raw byte buffer, reporting exactly
//! how many bytes it consumed. Truncated input is reported as a recoverable
//! condition so a caller can accumulate more bytes and retry.

pub mod cmd;
pub mod decode;
pub mod encode;
pub mod errors;
pub mod num;
pub mod roundtrip;
pub mod value;
