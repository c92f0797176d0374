//! From a message to the octets of a query.

use vstd::prelude::*;
use vstd::string::*;
use vstd::utf8::*;
use crate::error::DnsError;
use crate::message::{DnsHeader, DnsMessage, MessageView, QuestionView};
use crate::name::{encode_name, name_octets};
use crate::wire::{put_u16, u16_octets};

verus! {

/// The twelve octets of a header: identification, flags and the four
/// counts, in this order.
pub open spec fn header_octets(h: DnsHeader) -> Seq<u8> {
    u16_octets(h.identification) + u16_octets(h.flags) + u16_octets(h.no_of_questions)
        + u16_octets(h.no_of_answers_rr) + u16_octets(h.no_of_authority_rr) + u16_octets(
        h.no_of_additional_rr,
    )
}

/// The wire form of a question: its name, type and class.
pub open spec fn question_octets(q: QuestionView) -> Result<Seq<u8>, DnsError> {
    match name_octets(encode_utf8(q.qname)) {
        Ok(name) => Ok(name + u16_octets(q.qtype) + u16_octets(q.qclass)),
        Err(e) => Err(e),
    }
}

/// The wire form of a query: the header as it stands, then the question
/// where there is one. Records are not sent.
pub open spec fn message_octets(m: MessageView) -> Result<Seq<u8>, DnsError> {
    match m.question {
        None => Ok(header_octets(m.header)),
        Some(q) => match question_octets(q) {
            Ok(question) => Ok(header_octets(m.header) + question),
            Err(e) => Err(e),
        },
    }
}

/// The value of what encoding gives.
pub open spec fn encoded_view(r: Result<Vec<u8>, DnsError>) -> Result<Seq<u8>, DnsError> {
    match r {
        Ok(bytes) => Ok(bytes@),
        Err(e) => Err(e),
    }
}

impl DnsMessage {
    /// Writes the header and the question in wire form. Fails with
    /// `InvalidName` where a label of the question's name is empty or longer
    /// than 63 octets.
    pub fn to_bytes(&self) -> (r: Result<Vec<u8>, DnsError>)
        ensures
            encoded_view(r) == message_octets(self@),
    {
        let mut bytes: Vec<u8> = Vec::new();
        put_u16(&mut bytes, self.header.identification);
        put_u16(&mut bytes, self.header.flags);
        put_u16(&mut bytes, self.header.no_of_questions);
        put_u16(&mut bytes, self.header.no_of_answers_rr);
        put_u16(&mut bytes, self.header.no_of_authority_rr);
        put_u16(&mut bytes, self.header.no_of_additional_rr);
        assert(bytes@ =~= header_octets(self.header));
        match &self.question {
            None => Ok(bytes),
            Some(q) => {
                let mut name = encode_name(q.qname.as_str().as_bytes())?;
                bytes.append(&mut name);
                put_u16(&mut bytes, q.qtype);
                put_u16(&mut bytes, q.qclass);
                assert(bytes@ =~= header_octets(self.header) + (name_octets(
                    encode_utf8(q.qname@),
                ).unwrap() + u16_octets(q.qtype) + u16_octets(q.qclass)));
                Ok(bytes)
            },
        }
    }
}

} // verus!
