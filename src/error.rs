use vstd::prelude::*;

verus! {

/// `std::io::Error`, carried opaquely by [`DnsError::Io`].
#[verifier::external_type_specification]
#[verifier::external_body]
pub struct ExIoError(std::io::Error);

/// The kinds of failure of the codec and of the server around it.
#[derive(Debug)]
pub enum DnsError {
    /// A socket could not be bound, or a send or receive failed.
    Io(std::io::Error),
    /// A packet is truncated or malformed.
    Parse(String),
    /// Forwarding a question produced no answer.
    Resolution(String),
    /// A record could not be encoded.
    Serialization(String),
    /// A failure of no other kind.
    Unknown,
}

impl DnsError {
    /// A parse error with the given description.
    pub fn parse(msg: &str) -> (r: DnsError)
        ensures
            r is Parse,
    {
        DnsError::Parse(msg.to_string())
    }

    /// A resolution error with the given description.
    pub fn resolution(msg: &str) -> (r: DnsError)
        ensures
            r is Resolution,
    {
        DnsError::Resolution(msg.to_string())
    }
}

} // verus!
