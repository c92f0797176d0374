//! The ways in which encoding or decoding a message can fail.

use vstd::prelude::*;

verus! {

/// A local, recoverable failure of the codec.
#[derive(Clone, Copy, Debug, PartialEq, Eq, Structural)]
pub enum DnsError {
    /// A label of the name to encode is empty or longer than 63 octets.
    InvalidName,
    /// A field of the buffer to decode would extend past its end.
    Truncated,
    /// A compression pointer does not point strictly backwards, or the chain
    /// of pointers is longer than any chain without a cycle can be.
    MalformedPointer,
    /// The message does not hold exactly one question.
    UnexpectedQuestionCount,
}

impl DnsError {
    /// A short description for display.
    pub fn message(&self) -> (text: &'static str)
        ensures
            text@ == Self::message_text(*self),
    {
        match self {
            DnsError::InvalidName => "invalid name: a label is empty or longer than 63 octets",
            DnsError::Truncated => "truncated message: a field extends past the end of the buffer",
            DnsError::MalformedPointer => "malformed compression pointer",
            DnsError::UnexpectedQuestionCount => "message does not hold exactly one question",
        }
    }

    /// The text that [`DnsError::message`] returns.
    pub open spec fn message_text(e: DnsError) -> Seq<char> {
        match e {
            DnsError::InvalidName => "invalid name: a label is empty or longer than 63 octets"@,
            DnsError::Truncated => "truncated message: a field extends past the end of the buffer"@,
            DnsError::MalformedPointer => "malformed compression pointer"@,
            DnsError::UnexpectedQuestionCount => "message does not hold exactly one question"@,
        }
    }
}

} // verus!
