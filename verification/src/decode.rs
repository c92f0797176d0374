//! From the octets of a reply to a message.

use vstd::prelude::*;
use vstd::slice::*;
use crate::error::DnsError;
use crate::message::{
    question_view,
    records_view,
    records_wf,
    DnsHeader,
    DnsMessage,
    DnsQuestion,
    MessageView,
    QuestionView,
    RecordView,
    ResourceRecord,
    HEADER_LEN,
};
use crate::name::lemma_walk_bounds;
use crate::text::{decode_name, text_name_at};
use crate::wire::{get_u16, read_u16, read_u32, u16_at, u32_at};

verus! {

/// The length of what follows the name in a question: type and class.
pub const QUESTION_FIXED_LEN: usize = 4;

/// The length of what stands between the name and the data of a record:
/// type, class, time to live and the length of the data.
pub const RECORD_FIXED_LEN: usize = 10;

/// The header that the first twelve octets spell.
pub open spec fn header_at(buf: Seq<u8>) -> DnsHeader
    recommends
        buf.len() >= HEADER_LEN,
{
    DnsHeader {
        identification: u16_at(buf, 0),
        flags: u16_at(buf, 2),
        no_of_questions: u16_at(buf, 4),
        no_of_answers_rr: u16_at(buf, 6),
        no_of_authority_rr: u16_at(buf, 8),
        no_of_additional_rr: u16_at(buf, 10),
    }
}

/// The question that starts at `pos`, and the offset behind it.
pub open spec fn question_at(buf: Seq<u8>, pos: int) -> Result<(QuestionView, int), DnsError> {
    match text_name_at(buf, pos) {
        Err(e) => Err(e),
        Ok((name, p)) => if p + QUESTION_FIXED_LEN > buf.len() {
            Err(DnsError::Truncated)
        } else {
            Ok(
                (
                    QuestionView { qname: name, qtype: u16_at(buf, p), qclass: u16_at(buf, p + 2) },
                    p + QUESTION_FIXED_LEN,
                ),
            )
        },
    }
}

/// The record that starts at `pos`, and the offset behind it.
pub open spec fn record_at(buf: Seq<u8>, pos: int) -> Result<(RecordView, int), DnsError> {
    match text_name_at(buf, pos) {
        Err(e) => Err(e),
        Ok((name, p)) => if p + RECORD_FIXED_LEN > buf.len() {
            Err(DnsError::Truncated)
        } else if p + RECORD_FIXED_LEN + u16_at(buf, p + 8) > buf.len() {
            Err(DnsError::Truncated)
        } else {
            Ok(
                (
                    RecordView {
                        name,
                        rr_type: u16_at(buf, p),
                        class: u16_at(buf, p + 2),
                        ttl: u32_at(buf, p + 4),
                        rdlength: u16_at(buf, p + 8),
                        rdata: buf.subrange(
                            p + RECORD_FIXED_LEN,
                            p + RECORD_FIXED_LEN + u16_at(buf, p + 8),
                        ),
                    },
                    p + RECORD_FIXED_LEN + u16_at(buf, p + 8),
                ),
            )
        },
    }
}

/// The `count` questions that start at `pos`, one behind the other, and the
/// offset behind the last.
pub open spec fn questions_at(buf: Seq<u8>, pos: int, count: nat) -> Result<
    (Seq<QuestionView>, int),
    DnsError,
>
    decreases count,
{
    if count == 0 {
        Ok((Seq::empty(), pos))
    } else {
        match question_at(buf, pos) {
            Err(e) => Err(e),
            Ok((first, p)) => match questions_at(buf, p, (count - 1) as nat) {
                Err(e) => Err(e),
                Ok((rest, next)) => Ok((seq![first] + rest, next)),
            },
        }
    }
}

/// The `count` records that start at `pos`, one behind the other, and the
/// offset behind the last.
pub open spec fn records_at(buf: Seq<u8>, pos: int, count: nat) -> Result<
    (Seq<RecordView>, int),
    DnsError,
>
    decreases count,
{
    if count == 0 {
        Ok((Seq::empty(), pos))
    } else {
        match record_at(buf, pos) {
            Err(e) => Err(e),
            Ok((first, p)) => match records_at(buf, p, (count - 1) as nat) {
                Err(e) => Err(e),
                Ok((rest, next)) => Ok((seq![first] + rest, next)),
            },
        }
    }
}

/// The message that a buffer spells: the header, then as many questions,
/// answers, authority records and additional records as the header counts,
/// in this order. Of the questions the first is kept. What follows the last
/// record is not read. The first field that would extend past the end of
/// the buffer, or the first bad pointer, decides the error.
pub open spec fn decode_message(buf: Seq<u8>) -> Result<MessageView, DnsError> {
    if buf.len() < HEADER_LEN {
        Err(DnsError::Truncated)
    } else {
        let header = header_at(buf);
        match questions_at(buf, HEADER_LEN as int, header.no_of_questions as nat) {
            Err(e) => Err(e),
            Ok((questions, behind_questions)) => match sections_at(buf, behind_questions, header) {
                Err(e) => Err(e),
                Ok((answers, authority, additional)) => Ok(
                    MessageView {
                        header,
                        question: first_question(questions),
                        answers,
                        authority,
                        additional,
                    },
                ),
            },
        }
    }
}

/// The three record lists that start at `pos`, as long as the header says:
/// answers, then authority records, then additional records.
pub open spec fn sections_at(buf: Seq<u8>, pos: int, header: DnsHeader) -> Result<
    (Seq<RecordView>, Seq<RecordView>, Seq<RecordView>),
    DnsError,
> {
    match records_at(buf, pos, header.no_of_answers_rr as nat) {
        Err(e) => Err(e),
        Ok((answers, behind_answers)) => match records_at(
            buf,
            behind_answers,
            header.no_of_authority_rr as nat,
        ) {
            Err(e) => Err(e),
            Ok((authority, behind_authority)) => match records_at(
                buf,
                behind_authority,
                header.no_of_additional_rr as nat,
            ) {
                Err(e) => Err(e),
                Ok((additional, _)) => Ok((answers, authority, additional)),
            },
        },
    }
}

/// The first of a run of questions, if there is one.
pub open spec fn first_question(questions: Seq<QuestionView>) -> Option<QuestionView> {
    if questions.len() > 0 {
        Some(questions[0])
    } else {
        None
    }
}

/// A run of records that is read holds as many records as were asked for,
/// each with data of the length it declares, and ends inside the buffer.
pub proof fn lemma_records_count(buf: Seq<u8>, pos: int, count: nat)
    requires
        0 <= pos <= buf.len(),
    ensures
        records_at(buf, pos, count) matches Ok((records, next)) ==> {
            &&& records.len() == count
            &&& records_wf(records)
            &&& pos <= next <= buf.len()
        },
    decreases count,
{
    if count > 0 {
        lemma_walk_bounds(buf, pos, buf.len());
        match record_at(buf, pos) {
            Ok((first, p)) => {
                lemma_records_count(buf, p, (count - 1) as nat);
                match records_at(buf, p, (count - 1) as nat) {
                    Ok((rest, next)) => {
                        let all = seq![first] + rest;
                        assert forall|i: int| 0 <= i < all.len() implies (#[trigger] all[i]).wf() by {
                            if i > 0 {
                                assert(all[i] == rest[i - 1]);
                            }
                        }
                    },
                    Err(_) => {},
                }
            },
            Err(_) => {},
        }
    }
}

/// A run of questions that is read holds as many questions as were asked
/// for, and ends inside the buffer.
pub proof fn lemma_questions_count(buf: Seq<u8>, pos: int, count: nat)
    requires
        0 <= pos <= buf.len(),
    ensures
        questions_at(buf, pos, count) matches Ok((questions, next)) ==> {
            &&& questions.len() == count
            &&& pos <= next <= buf.len()
        },
    decreases count,
{
    if count > 0 {
        lemma_walk_bounds(buf, pos, buf.len());
        match question_at(buf, pos) {
            Ok((first, p)) => {
                lemma_questions_count(buf, p, (count - 1) as nat);
            },
            Err(_) => {},
        }
    }
}

/// In a decoded message the header counts tell what the message holds: a
/// question exactly where the question count is not zero, and in each list
/// as many records as its count says.
pub proof fn lemma_decoded_counts_agree(buf: Seq<u8>)
    ensures
        decode_message(buf) matches Ok(msg) ==> msg.wf(),
{
    if buf.len() >= HEADER_LEN {
        let header = header_at(buf);
        lemma_questions_count(buf, HEADER_LEN as int, header.no_of_questions as nat);
        if let Ok((_, pos)) = questions_at(buf, HEADER_LEN as int, header.no_of_questions as nat) {
            lemma_records_count(buf, pos, header.no_of_answers_rr as nat);
            if let Ok((_, pos)) = records_at(buf, pos, header.no_of_answers_rr as nat) {
                lemma_records_count(buf, pos, header.no_of_authority_rr as nat);
                if let Ok((_, pos)) = records_at(buf, pos, header.no_of_authority_rr as nat) {
                    lemma_records_count(buf, pos, header.no_of_additional_rr as nat);
                }
            }
        }
    }
}

/// Reads the question that starts at `pos`.
pub fn parse_question(buf: &[u8], pos: usize) -> (r: Result<(DnsQuestion, usize), DnsError>)
    ensures
        match r {
            Ok((q, next)) => question_at(buf@, pos as int) == Ok::<(QuestionView, int), DnsError>(
                (q@, next as int),
            ),
            Err(e) => question_at(buf@, pos as int) == Err::<(QuestionView, int), DnsError>(e),
        },
{
    let (qname, p) = decode_name(buf, pos)?;
    if buf.len() < QUESTION_FIXED_LEN || p > buf.len() - QUESTION_FIXED_LEN {
        return Err(DnsError::Truncated);
    }
    let qtype = match read_u16(buf, p) {
        Some(v) => v,
        None => { return Err(DnsError::Truncated); },
    };
    let qclass = match read_u16(buf, p + 2) {
        Some(v) => v,
        None => { return Err(DnsError::Truncated); },
    };
    Ok((DnsQuestion { qname, qtype, qclass }, p + QUESTION_FIXED_LEN))
}

/// Reads the record that starts at `pos`.
pub fn parse_record(buf: &[u8], pos: usize) -> (r: Result<(ResourceRecord, usize), DnsError>)
    ensures
        match r {
            Ok((rr, next)) => record_at(buf@, pos as int) == Ok::<(RecordView, int), DnsError>(
                (rr@, next as int),
            ),
            Err(e) => record_at(buf@, pos as int) == Err::<(RecordView, int), DnsError>(e),
        },
{
    let (name, p) = decode_name(buf, pos)?;
    if buf.len() < RECORD_FIXED_LEN || p > buf.len() - RECORD_FIXED_LEN {
        return Err(DnsError::Truncated);
    }
    let rr_type = match read_u16(buf, p) {
        Some(v) => v,
        None => { return Err(DnsError::Truncated); },
    };
    let class = match read_u16(buf, p + 2) {
        Some(v) => v,
        None => { return Err(DnsError::Truncated); },
    };
    let ttl = match read_u32(buf, p + 4) {
        Some(v) => v,
        None => { return Err(DnsError::Truncated); },
    };
    let rdlength = match read_u16(buf, p + 8) {
        Some(v) => v,
        None => { return Err(DnsError::Truncated); },
    };
    let start: usize = p + RECORD_FIXED_LEN;
    if rdlength as usize > buf.len() - start {
        return Err(DnsError::Truncated);
    }
    let end: usize = start + rdlength as usize;
    let rdata = slice_to_vec(slice_subrange(buf, start, end));
    Ok((ResourceRecord { name, rr_type, class, ttl, rdlength, rdata }, end))
}

/// What a run of records that already holds `acc` makes of the rest.
spec fn records_then(acc: Seq<RecordView>, rest: Result<(Seq<RecordView>, int), DnsError>)
    -> Result<(Seq<RecordView>, int), DnsError> {
    match rest {
        Ok((records, next)) => Ok((acc + records, next)),
        Err(e) => Err(e),
    }
}

/// Reads `count` records, one behind the other, from `start` on.
pub fn parse_records(buf: &[u8], start: usize, count: u16) -> (r: Result<
    (Vec<ResourceRecord>, usize),
    DnsError,
>)
    ensures
        match r {
            Ok((records, next)) => records_at(buf@, start as int, count as nat) == Ok::<
                (Seq<RecordView>, int),
                DnsError,
            >((records_view(records@), next as int)),
            Err(e) => records_at(buf@, start as int, count as nat) == Err::<
                (Seq<RecordView>, int),
                DnsError,
            >(e),
        },
{
    let mut records: Vec<ResourceRecord> = Vec::new();
    let mut pos: usize = start;
    let mut i: u16 = 0;
    assert(Seq::<RecordView>::empty() + Seq::<RecordView>::empty() =~= Seq::<RecordView>::empty());
    while i < count
        invariant
            i <= count,
            records_at(buf@, start as int, count as nat) == records_then(
                records_view(records@),
                records_at(buf@, pos as int, (count - i) as nat),
            ),
        decreases count - i,
    {
        let (rr, next) = parse_record(buf, pos)?;
        proof {
            let before = records_view(records@);
            assert(records_view(records@.push(rr)) =~= before + seq![rr@]);
            assert forall|rest: Seq<RecordView>| before + (seq![rr@] + rest) =~= (before + seq![rr@])
                + rest by {}
        }
        records.push(rr);
        pos = next;
        i = i + 1;
    }
    assert(records_view(records@) + Seq::<RecordView>::empty() =~= records_view(records@));
    Ok((records, pos))
}

/// What a run of questions that already holds `acc` makes of the rest.
spec fn questions_then(
    acc: Seq<QuestionView>,
    rest: Result<(Seq<QuestionView>, int), DnsError>,
) -> Result<(Seq<QuestionView>, int), DnsError> {
    match rest {
        Ok((questions, next)) => Ok((acc + questions, next)),
        Err(e) => Err(e),
    }
}

/// Reads `count` questions, one behind the other, from `start` on, and
/// keeps the first.
pub fn parse_questions(buf: &[u8], start: usize, count: u16) -> (r: Result<
    (Option<DnsQuestion>, usize),
    DnsError,
>)
    ensures
        match r {
            Ok((first, next)) => {
                &&& questions_at(buf@, start as int, count as nat) matches Ok((questions, p))
                &&& p == next
                &&& question_view(first) == first_question(questions)
            },
            Err(e) => questions_at(buf@, start as int, count as nat) == Err::<
                (Seq<QuestionView>, int),
                DnsError,
            >(e),
        },
{
    let mut first: Option<DnsQuestion> = None;
    let ghost mut seen: Seq<QuestionView> = Seq::empty();
    let mut pos: usize = start;
    let mut i: u16 = 0;
    assert(seen + Seq::<QuestionView>::empty() =~= seen);
    while i < count
        invariant
            i <= count,
            seen.len() == i,
            question_view(first) == first_question(seen),
            questions_at(buf@, start as int, count as nat) == questions_then(
                seen,
                questions_at(buf@, pos as int, (count - i) as nat),
            ),
        decreases count - i,
    {
        let (q, next) = parse_question(buf, pos)?;
        proof {
            assert forall|rest: Seq<QuestionView>| seen + (seq![q@] + rest) =~= (seen + seq![q@])
                + rest by {}
            seen = seen + seq![q@];
        }
        if first.is_none() {
            first = Some(q);
        }
        pos = next;
        i = i + 1;
    }
    assert(seen + Seq::<QuestionView>::empty() =~= seen);
    Ok((first, pos))
}

/// The value of what decoding gives.
pub open spec fn decoded_view(r: Result<DnsMessage, DnsError>) -> Result<MessageView, DnsError> {
    match r {
        Ok(msg) => Ok(msg@),
        Err(e) => Err(e),
    }
}

impl DnsMessage {
    /// Rebuilds a message from its wire form, following compression
    /// pointers in names.
    ///
    /// Fails with `Truncated` where a field would extend past the end of the
    /// buffer, and with `MalformedPointer` where a pointer does not point
    /// strictly backwards or a chain of pointers cannot end. In a message
    /// that is returned the header counts agree with what the lists hold.
    pub fn from_bytes(buf: &[u8]) -> (r: Result<DnsMessage, DnsError>)
        ensures
            decoded_view(r) == decode_message(buf@),
            r matches Ok(msg) ==> msg@.wf(),
    {
        proof {
            lemma_decoded_counts_agree(buf@);
        }
        if buf.len() < HEADER_LEN {
            return Err(DnsError::Truncated);
        }
        let header = DnsHeader {
            identification: get_u16(buf, 0),
            flags: get_u16(buf, 2),
            no_of_questions: get_u16(buf, 4),
            no_of_answers_rr: get_u16(buf, 6),
            no_of_authority_rr: get_u16(buf, 8),
            no_of_additional_rr: get_u16(buf, 10),
        };
        let (question, pos) = parse_questions(buf, HEADER_LEN, header.no_of_questions)?;
        let (answers, pos) = parse_records(buf, pos, header.no_of_answers_rr)?;
        let (authority, pos) = parse_records(buf, pos, header.no_of_authority_rr)?;
        let (additional, _) = parse_records(buf, pos, header.no_of_additional_rr)?;
        Ok(DnsMessage { header, question, answers, authority, additional })
    }
}

} // verus!
