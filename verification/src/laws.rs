//! What holds of the codec as a whole.

use vstd::prelude::*;
use vstd::utf8::*;
use crate::decode::{
    decode_message,
    decoded_view,
    header_at,
    question_at,
    questions_at,
    records_at,
};
use crate::encode::{header_octets, message_octets, question_octets};
use crate::error::DnsError;
use crate::message::{
    DnsHeader,
    DnsMessage,
    MessageView,
    QuestionView,
    RecordView,
    HEADER_LEN,
};
use crate::name::{
    comes_to,
    is_pointer,
    label_end,
    label_ok,
    labels_octets,
    labels_ok,
    lemma_label_end,
    name_at,
    name_octets,
    pointer_target,
    split_from,
    split_name,
    walk_name,
    DOT,
};
use crate::text::{label_texts, name_text, text_name_at};
use crate::wire::{lemma_u16_octets_roundtrip, u16_octets};

verus! {

/// A pointer whose target can be read gives the name found there, and the
/// enclosing structure resumes two octets behind the pointer's first octet,
/// not behind the name it leads to.
pub proof fn lemma_pointer_resumes_behind_itself(buf: Seq<u8>, pos: int, hops: nat)
    requires
        0 <= pos,
        pos + 1 < buf.len(),
        is_pointer(buf[pos]),
        pointer_target(buf[pos], buf[pos + 1]) < pos,
        hops > 0,
        walk_name(buf, pointer_target(buf[pos], buf[pos + 1]), (hops - 1) as nat) is Ok,
    ensures
        walk_name(buf, pos, hops) == Ok::<(Seq<Seq<u8>>, int), DnsError>(
            (
                walk_name(
                    buf,
                    pointer_target(buf[pos], buf[pos + 1]),
                    (hops - 1) as nat,
                ).unwrap().0,
                pos + 2,
            ),
        ),
{
}

/// A walk that comes to an octet which it cannot take is refused there:
/// as truncated where the buffer ends inside a pointer or a label, as a
/// malformed pointer where a pointer names its own offset or a later one.
proof fn lemma_walk_stops_at(buf: Seq<u8>, pos: int, hops: nat, at: int)
    requires
        comes_to(buf, pos, hops, at),
    ensures
        is_pointer(buf[at]) && at + 1 >= buf.len() ==> walk_name(buf, pos, hops) == Err::<
            (Seq<Seq<u8>>, int),
            DnsError,
        >(DnsError::Truncated),
        is_pointer(buf[at]) && at + 1 < buf.len() && pointer_target(buf[at], buf[at + 1]) >= at
            ==> walk_name(buf, pos, hops) == Err::<(Seq<Seq<u8>>, int), DnsError>(
            DnsError::MalformedPointer,
        ),
        !is_pointer(buf[at]) && at + 1 + buf[at] > buf.len() ==> walk_name(buf, pos, hops)
            == Err::<(Seq<Seq<u8>>, int), DnsError>(DnsError::Truncated),
    decreases hops, buf.len() - pos,
{
    if pos == at {
    } else if is_pointer(buf[pos]) {
        lemma_walk_stops_at(buf, pointer_target(buf[pos], buf[pos + 1]), (hops - 1) as nat, at);
    } else {
        lemma_walk_stops_at(buf, pos + 1 + buf[pos], hops, at);
    }
}

/// Cycle guard: a name whose walk comes to a pointer that names its own
/// offset or a later one is refused as malformed, whatever lies at the
/// target and however the walk came there.
pub proof fn lemma_pointer_not_backwards_is_refused(buf: Seq<u8>, pos: int, at: int)
    requires
        comes_to(buf, pos, buf.len(), at),
        at + 1 < buf.len(),
        is_pointer(buf[at]),
        pointer_target(buf[at], buf[at + 1]) >= at,
    ensures
        name_at(buf, pos) == Err::<(Seq<Seq<u8>>, int), DnsError>(DnsError::MalformedPointer),
        text_name_at(buf, pos) == Err::<(Seq<char>, int), DnsError>(DnsError::MalformedPointer),
{
    lemma_walk_stops_at(buf, pos, buf.len(), at);
}

/// Boundary: a name whose walk comes to a length octet that promises more
/// octets than the buffer holds behind it is refused as truncated.
pub proof fn lemma_label_past_end_is_truncated(buf: Seq<u8>, pos: int, at: int)
    requires
        comes_to(buf, pos, buf.len(), at),
        !is_pointer(buf[at]),
        at + 1 + buf[at] > buf.len(),
    ensures
        name_at(buf, pos) == Err::<(Seq<Seq<u8>>, int), DnsError>(DnsError::Truncated),
        text_name_at(buf, pos) == Err::<(Seq<char>, int), DnsError>(DnsError::Truncated),
{
    lemma_walk_stops_at(buf, pos, buf.len(), at);
}

/// A name whose walk comes to a pointer of which the buffer holds only the
/// first octet is refused as truncated.
pub proof fn lemma_half_pointer_is_truncated(buf: Seq<u8>, pos: int, at: int)
    requires
        comes_to(buf, pos, buf.len(), at),
        is_pointer(buf[at]),
        at + 1 >= buf.len(),
    ensures
        name_at(buf, pos) == Err::<(Seq<Seq<u8>>, int), DnsError>(DnsError::Truncated),
        text_name_at(buf, pos) == Err::<(Seq<char>, int), DnsError>(DnsError::Truncated),
{
    lemma_walk_stops_at(buf, pos, buf.len(), at);
}

/// Where the header counts more records than the buffer holds, so that one
/// of them would start at or behind its end, decoding fails as truncated.
pub proof fn lemma_missing_record_is_truncated(buf: Seq<u8>, pos: int, count: nat)
    requires
        count > 0,
        pos >= buf.len(),
    ensures
        records_at(buf, pos, count) == Err::<(Seq<RecordView>, int), DnsError>(
            DnsError::Truncated,
        ),
{
}

/// Decoding the same buffer twice gives the same value: whatever two calls
/// of [`DnsMessage::from_bytes`] return for equal buffers, the results are
/// equal as values.
pub proof fn lemma_decode_twice_agrees(
    buf: Seq<u8>,
    first: Result<DnsMessage, DnsError>,
    second: Result<DnsMessage, DnsError>,
)
    requires
        decoded_view(first) == decode_message(buf),
        decoded_view(second) == decode_message(buf),
    ensures
        decoded_view(first) == decoded_view(second),
{
}

/// Labels that can be sent, written in wire form anywhere in a buffer, are
/// read back as they were, with no pointer followed, and the name ends
/// where its wire form ends.
pub proof fn lemma_walk_reads_labels(buf: Seq<u8>, pos: int, hops: nat, labels: Seq<Seq<u8>>)
    requires
        labels_ok(labels),
        0 <= pos,
        pos + labels_octets(labels).len() <= buf.len(),
        buf.subrange(pos, pos + labels_octets(labels).len()) == labels_octets(labels),
    ensures
        walk_name(buf, pos, hops) == Ok::<(Seq<Seq<u8>>, int), DnsError>(
            (labels, pos + labels_octets(labels).len()),
        ),
    decreases labels.len(),
{
    let octets = labels_octets(labels);
    let part = buf.subrange(pos, pos + octets.len());
    assert(buf[pos] == part[0]);
    if labels.len() == 0 {
        assert(labels =~= Seq::<Seq<u8>>::empty());
    } else {
        let first = labels[0];
        let rest = labels.drop_first();
        let tail = labels_octets(rest);
        assert(label_ok(first));
        assert(octets =~= seq![first.len() as u8] + first + tail);
        assert(octets.len() == 1 + first.len() + tail.len());
        assert(part[0] == first.len() as u8);
        assert(buf.subrange(pos + 1, pos + 1 + first.len()) =~= first) by {
            assert forall|i: int| 0 <= i < first.len() implies buf[pos + 1 + i] == first[i] by {
                assert(part[1 + i] == octets[1 + i]);
            }
        }
        let p = pos + 1 + first.len();
        assert(buf.subrange(p, p + tail.len()) =~= tail) by {
            assert forall|i: int| 0 <= i < tail.len() implies buf[p + i] == tail[i] by {
                assert(part[1 + first.len() + i] == octets[1 + first.len() + i]);
            }
        }
        assert forall|i: int| 0 <= i < rest.len() implies label_ok(#[trigger] rest[i]) by {
            assert(rest[i] == labels[i + 1]);
        }
        lemma_walk_reads_labels(buf, p, hops, rest);
        assert(seq![first] + rest =~= labels);
    }
}

/// A name always has at least one label.
proof fn lemma_split_nonempty(name: Seq<u8>, from: int)
    ensures
        split_from(name, from).len() >= 1,
{
}

/// Splitting well-formed UTF-8 at its dots gives well-formed labels, and
/// their texts joined by dots are the text of the whole.
pub proof fn lemma_split_text(name: Seq<u8>, from: int)
    requires
        0 <= from <= name.len(),
        valid_utf8(name.subrange(from, name.len() as int)),
    ensures
        name_text(split_from(name, from)) == decode_utf8(name.subrange(from, name.len() as int)),
    decreases name.len() - from,
{
    let whole = name.subrange(from, name.len() as int);
    let end = label_end(name, from);
    lemma_label_end(name, from);
    if end >= name.len() {
        assert(label_texts(split_from(name, from)) =~= seq![decode_utf8(whole)]);
    } else {
        let k = end - from;
        assert(whole[k] == DOT);
        is_char_boundary_iff_not_is_continuation_byte(whole, k);
        valid_utf8_split(whole, k);
        decode_utf8_split(whole, k);
        let head = whole.subrange(0, k);
        let tail = whole.subrange(k, whole.len() as int);
        assert(head =~= name.subrange(from, end));
        assert(tail[0] == DOT);
        assert(pop_first_scalar(tail) =~= name.subrange(end + 1, name.len() as int));
        assert(decode_first_scalar(tail) == 0x2Eu32) by {
            assert((0x2Eu8 & 0x7f) as u32 == 0x2Eu32) by (bit_vector);
        }
        assert(0x2Eu32 as char == '.');
        assert(decode_utf8(tail) =~= seq!['.'] + decode_utf8(pop_first_scalar(tail)));
        lemma_split_text(name, end + 1);
        lemma_split_nonempty(name, end + 1);
        let rest = split_from(name, end + 1);
        let texts = label_texts(split_from(name, from));
        assert(split_from(name, from) =~= seq![head] + rest);
        assert(texts[0] == decode_utf8(head));
        assert(texts.drop_first() =~= label_texts(rest));
    }
}

/// Sending a name and reading it back gives the name.
pub proof fn lemma_name_roundtrip(name: Seq<char>, buf: Seq<u8>, pos: int)
    requires
        name_octets(encode_utf8(name)) matches Ok(octets) && 0 <= pos && pos + octets.len()
            <= buf.len() && buf.subrange(pos, pos + octets.len()) == octets,
    ensures
        text_name_at(buf, pos) == Ok::<(Seq<char>, int), DnsError>(
            (name, pos + name_octets(encode_utf8(name)).unwrap().len()),
        ),
{
    let bytes = encode_utf8(name);
    let labels = split_name(bytes);
    encode_utf8_valid_utf8(name);
    encode_utf8_decode_utf8(name);
    assert(bytes.subrange(0, bytes.len() as int) =~= bytes);
    lemma_split_text(bytes, 0);
    lemma_walk_reads_labels(buf, pos, buf.len(), labels);
}

/// The header written in wire form is read back as it was.
pub proof fn lemma_header_roundtrip(header: DnsHeader, buf: Seq<u8>)
    requires
        buf.len() >= HEADER_LEN,
        buf.subrange(0, HEADER_LEN as int) == header_octets(header),
    ensures
        header_at(buf) == header,
{
    let octets = header_octets(header);
    assert(octets.len() == 12);
    assert forall|i: int| 0 <= i < 12 implies buf[i] == octets[i] by {
        assert(buf.subrange(0, HEADER_LEN as int)[i] == buf[i]);
    }
    lemma_u16_octets_roundtrip(header.identification);
    lemma_u16_octets_roundtrip(header.flags);
    lemma_u16_octets_roundtrip(header.no_of_questions);
    lemma_u16_octets_roundtrip(header.no_of_answers_rr);
    lemma_u16_octets_roundtrip(header.no_of_authority_rr);
    lemma_u16_octets_roundtrip(header.no_of_additional_rr);
    assert(octets[0] == u16_octets(header.identification)[0]);
    assert(octets[1] == u16_octets(header.identification)[1]);
    assert(octets[2] == u16_octets(header.flags)[0]);
    assert(octets[3] == u16_octets(header.flags)[1]);
    assert(octets[4] == u16_octets(header.no_of_questions)[0]);
    assert(octets[5] == u16_octets(header.no_of_questions)[1]);
    assert(octets[6] == u16_octets(header.no_of_answers_rr)[0]);
    assert(octets[7] == u16_octets(header.no_of_answers_rr)[1]);
    assert(octets[8] == u16_octets(header.no_of_authority_rr)[0]);
    assert(octets[9] == u16_octets(header.no_of_authority_rr)[1]);
    assert(octets[10] == u16_octets(header.no_of_additional_rr)[0]);
    assert(octets[11] == u16_octets(header.no_of_additional_rr)[1]);
}

/// A question written in wire form anywhere in a buffer is read back as it
/// was, and ends where its wire form ends.
pub proof fn lemma_question_roundtrip(q: QuestionView, buf: Seq<u8>, pos: int)
    requires
        question_octets(q) matches Ok(octets) && 0 <= pos && pos + octets.len() <= buf.len()
            && buf.subrange(pos, pos + octets.len()) == octets,
    ensures
        question_at(buf, pos) == Ok::<(QuestionView, int), DnsError>(
            (q, pos + question_octets(q).unwrap().len()),
        ),
{
    let octets = question_octets(q).unwrap();
    let name = name_octets(encode_utf8(q.qname)).unwrap();
    let part = buf.subrange(pos, pos + octets.len());
    let n = name.len() as int;
    let p = pos + n;
    assert(octets =~= name + u16_octets(q.qtype) + u16_octets(q.qclass));
    assert(buf.subrange(pos, pos + name.len()) =~= name) by {
        assert forall|i: int| 0 <= i < name.len() implies buf[pos + i] == name[i] by {
            assert(part[i] == octets[i]);
        }
    }
    lemma_name_roundtrip(q.qname, buf, pos);
    lemma_u16_octets_roundtrip(q.qtype);
    lemma_u16_octets_roundtrip(q.qclass);
    assert(buf[p] == u16_octets(q.qtype)[0]) by {
        assert(part[n] == octets[n]);
    }
    assert(buf[p + 1] == u16_octets(q.qtype)[1]) by {
        assert(part[n + 1] == octets[n + 1]);
    }
    assert(buf[p + 2] == u16_octets(q.qclass)[0]) by {
        assert(part[n + 2] == octets[n + 2]);
    }
    assert(buf[p + 3] == u16_octets(q.qclass)[1]) by {
        assert(part[n + 3] == octets[n + 3]);
    }
}

/// Round trip: a query, that is a message of one question and no records,
/// whose name can be sent, is decoded from its own wire form as the message
/// it was: the same header with its counts, the same name letter for
/// letter, the same type and class.
pub proof fn lemma_query_roundtrip(msg: MessageView)
    requires
        msg.wf(),
        msg.is_query(),
        message_octets(msg) is Ok,
    ensures
        decode_message(message_octets(msg).unwrap()) == Ok::<MessageView, DnsError>(msg),
{
    let buf = message_octets(msg).unwrap();
    let q = msg.question.unwrap();
    let octets = question_octets(q).unwrap();
    let head = header_octets(msg.header);
    assert(head.len() == 12);
    assert(buf =~= head + octets);
    assert(buf.subrange(0, HEADER_LEN as int) =~= head);
    let end = 12 + octets.len() as int;
    assert(buf.subrange(12, end) =~= octets);
    lemma_header_roundtrip(msg.header, buf);
    lemma_question_roundtrip(q, buf, 12);
    assert(questions_at(buf, end, 0) == Ok::<(Seq<QuestionView>, int), DnsError>(
        (Seq::empty(), end),
    ));
    assert(seq![q] + Seq::<QuestionView>::empty() =~= seq![q]);
    assert(questions_at(buf, 12, 1) == Ok::<(Seq<QuestionView>, int), DnsError>((seq![q], end)));
    assert(records_at(buf, end, 0) == Ok::<(Seq<RecordView>, int), DnsError>(
        (Seq::empty(), end),
    ));
    assert(msg.answers =~= Seq::<RecordView>::empty());
    assert(msg.authority =~= Seq::<RecordView>::empty());
    assert(msg.additional =~= Seq::<RecordView>::empty());
}

} // verus!
