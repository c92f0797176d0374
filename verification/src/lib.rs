//! Codec for the DNS message wire format.
//!
//! A [`DnsMessage`] is turned into the bytes of a query by
//! [`DnsMessage::to_bytes`] and rebuilt from the bytes of a reply by
//! [`DnsMessage::from_bytes`], which also follows name-compression pointers.
//! Every function is stated against a mathematical model of the wire layout
//! and proved to agree with it.

pub mod chain;
pub mod decode;
pub mod encode;
pub mod error;
pub mod laws;
pub mod message;
pub mod name;
pub mod text;
pub mod wire;

pub use error::DnsError;
pub use message::{DnsHeader, DnsMessage, DnsQuestion, ResourceRecord};
