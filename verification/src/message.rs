//! The message model: header, question and the three record lists.

use vstd::prelude::*;
use crate::error::DnsError;

verus! {

/// The length of a header on the wire.
pub const HEADER_LEN: usize = 12;

/// The identification that [`DnsMessage::new`] gives a query.
pub const DEFAULT_ID: u16 = 0x1234;

/// The flags of a standard query that asks for recursion.
pub const FLAGS_RECURSION_DESIRED: u16 = 0x0100;

/// The record type of an IPv6 address.
pub const TYPE_AAAA: u16 = 28;

/// The class of Internet records.
pub const CLASS_IN: u16 = 1;

/// The fixed twelve octets at the start of every message.
///
/// `flags` is carried as one opaque value.
#[derive(Clone, Copy, Debug, PartialEq, Eq, Structural)]
pub struct DnsHeader {
    pub identification: u16,
    pub flags: u16,
    pub no_of_questions: u16,
    pub no_of_answers_rr: u16,
    pub no_of_authority_rr: u16,
    pub no_of_additional_rr: u16,
}

/// What is asked: a name, and the type and class of the records wanted.
#[derive(Clone, Debug, PartialEq, Eq)]
pub struct DnsQuestion {
    pub qname: String,
    pub qtype: u16,
    pub qclass: u16,
}

/// One entry of the answer, authority or additional section.
///
/// `rdata` is carried as it came, uninterpreted.
#[derive(Clone, Debug, PartialEq, Eq)]
pub struct ResourceRecord {
    pub name: String,
    pub rr_type: u16,
    pub class: u16,
    pub ttl: u32,
    pub rdlength: u16,
    pub rdata: Vec<u8>,
}

/// A whole message. `question` is `None` where the message holds no
/// question; of several questions it holds the first.
#[derive(Clone, Debug, PartialEq, Eq)]
pub struct DnsMessage {
    pub header: DnsHeader,
    pub question: Option<DnsQuestion>,
    pub answers: Vec<ResourceRecord>,
    pub authority: Vec<ResourceRecord>,
    pub additional: Vec<ResourceRecord>,
}

/// The value of a [`DnsQuestion`].
pub struct QuestionView {
    pub qname: Seq<char>,
    pub qtype: u16,
    pub qclass: u16,
}

/// The value of a [`ResourceRecord`].
pub struct RecordView {
    pub name: Seq<char>,
    pub rr_type: u16,
    pub class: u16,
    pub ttl: u32,
    pub rdlength: u16,
    pub rdata: Seq<u8>,
}

/// The value of a [`DnsMessage`].
pub struct MessageView {
    pub header: DnsHeader,
    pub question: Option<QuestionView>,
    pub answers: Seq<RecordView>,
    pub authority: Seq<RecordView>,
    pub additional: Seq<RecordView>,
}

impl View for DnsQuestion {
    type V = QuestionView;

    open spec fn view(&self) -> QuestionView {
        QuestionView { qname: self.qname@, qtype: self.qtype, qclass: self.qclass }
    }
}

impl View for ResourceRecord {
    type V = RecordView;

    open spec fn view(&self) -> RecordView {
        RecordView {
            name: self.name@,
            rr_type: self.rr_type,
            class: self.class,
            ttl: self.ttl,
            rdlength: self.rdlength,
            rdata: self.rdata@,
        }
    }
}

/// The values of a list of records.
pub open spec fn records_view(v: Seq<ResourceRecord>) -> Seq<RecordView> {
    Seq::new(v.len(), |i: int| v[i]@)
}

/// The value of an optional question.
pub open spec fn question_view(q: Option<DnsQuestion>) -> Option<QuestionView> {
    match q {
        Some(q) => Some(q@),
        None => None,
    }
}

impl View for DnsMessage {
    type V = MessageView;

    open spec fn view(&self) -> MessageView {
        MessageView {
            header: self.header,
            question: question_view(self.question),
            answers: records_view(self.answers@),
            authority: records_view(self.authority@),
            additional: records_view(self.additional@),
        }
    }
}

impl RecordView {
    /// The declared length of the data is its length.
    pub open spec fn wf(self) -> bool {
        self.rdlength == self.rdata.len()
    }
}

/// Whether every record of a list declares the length of its data.
pub open spec fn records_wf(records: Seq<RecordView>) -> bool {
    forall|i: int| 0 <= i < records.len() ==> (#[trigger] records[i]).wf()
}

impl MessageView {
    /// The header counts tell what the message holds: a question exactly
    /// where the question count is not zero, and as many records in each
    /// list as its count says, each with data of the declared length.
    pub open spec fn wf(self) -> bool {
        &&& self.question is Some <==> self.header.no_of_questions >= 1
        &&& self.answers.len() == self.header.no_of_answers_rr
        &&& self.authority.len() == self.header.no_of_authority_rr
        &&& self.additional.len() == self.header.no_of_additional_rr
        &&& records_wf(self.answers)
        &&& records_wf(self.authority)
        &&& records_wf(self.additional)
    }

    /// A fresh query for `name`: one question, no records.
    pub open spec fn query(name: Seq<char>, qtype: u16) -> MessageView {
        MessageView {
            header: DnsHeader {
                identification: DEFAULT_ID,
                flags: FLAGS_RECURSION_DESIRED,
                no_of_questions: 1,
                no_of_answers_rr: 0,
                no_of_authority_rr: 0,
                no_of_additional_rr: 0,
            },
            question: Some(QuestionView { qname: name, qtype, qclass: CLASS_IN }),
            answers: Seq::empty(),
            authority: Seq::empty(),
            additional: Seq::empty(),
        }
    }

    /// Whether the message holds a single question and no records.
    pub open spec fn is_query(self) -> bool {
        &&& self.header.no_of_questions == 1
        &&& self.answers.len() == 0
        &&& self.authority.len() == 0
        &&& self.additional.len() == 0
    }
}

impl DnsMessage {
    /// A fresh query for the IPv6 addresses of `url`.
    pub fn new(url: String) -> (msg: DnsMessage)
        ensures
            msg@ == MessageView::query(url@, TYPE_AAAA),
    {
        DnsMessage::with_type(url, TYPE_AAAA)
    }

    /// A fresh query for the records of type `qtype` of `url`, in the
    /// Internet class, with recursion desired.
    pub fn with_type(url: String, qtype: u16) -> (msg: DnsMessage)
        ensures
            msg@ == MessageView::query(url@, qtype),
    {
        let header = DnsHeader {
            identification: DEFAULT_ID,
            flags: FLAGS_RECURSION_DESIRED,
            no_of_questions: 1,
            no_of_answers_rr: 0,
            no_of_authority_rr: 0,
            no_of_additional_rr: 0,
        };
        let question = DnsQuestion { qname: url, qtype, qclass: CLASS_IN };
        let msg = DnsMessage {
            header,
            question: Some(question),
            answers: Vec::new(),
            authority: Vec::new(),
            additional: Vec::new(),
        };
        assert(msg@.answers =~= Seq::<RecordView>::empty());
        assert(msg@.authority =~= Seq::<RecordView>::empty());
        assert(msg@.additional =~= Seq::<RecordView>::empty());
        msg
    }

    /// The question of a message that holds exactly one.
    pub fn single_question(&self) -> (r: Result<&DnsQuestion, DnsError>)
        ensures
            match r {
                Ok(q) => self.header.no_of_questions == 1 && self.question == Some(*q),
                Err(e) => e == DnsError::UnexpectedQuestionCount && !(self.header.no_of_questions
                    == 1 && self.question is Some),
            },
    {
        if self.header.no_of_questions != 1 {
            return Err(DnsError::UnexpectedQuestionCount);
        }
        match &self.question {
            Some(q) => Ok(q),
            None => Err(DnsError::UnexpectedQuestionCount),
        }
    }
}

} // verus!
