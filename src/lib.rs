//! A DNS message codec (RFC 1035 wire format) with name compression,
//! and the decisions of a small forwarding DNS server built on it.

pub mod error;
pub mod wire;
pub mod header;
pub mod name;
pub mod traits;
pub mod question;
pub mod answer;
pub mod message;
pub mod server;
pub mod cache;

pub use answer::Answer;
pub use error::DnsError;
pub use header::Header;
pub use message::Message;
pub use question::Question;
pub use traits::Serializable;
