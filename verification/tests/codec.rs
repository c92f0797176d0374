use dns_message::decode::{parse_question, parse_record, parse_records};
use dns_message::message::{CLASS_IN, DEFAULT_ID, FLAGS_RECURSION_DESIRED, TYPE_AAAA};
use dns_message::name::{encode_name, parse_name};
use dns_message::text::{decode_name, join_labels, labels_to_text};
use dns_message::wire::{get_u16, put_u16, read_u16, read_u32};
use dns_message::{DnsError, DnsHeader, DnsMessage, DnsQuestion, ResourceRecord};

const EXAMPLE_COM: [u8; 13] = [7, b'e', b'x', b'a', b'm', b'p', b'l', b'e', 3, b'c', b'o', b'm', 0];

fn header_bytes(id: u16, flags: u16, qd: u16, an: u16, ns: u16, ar: u16) -> Vec<u8> {
    let mut out = Vec::new();
    for v in [id, flags, qd, an, ns, ar] {
        out.extend_from_slice(&v.to_be_bytes());
    }
    out
}

/// A reply to a query for example.com with one address record whose name is
/// a pointer to the question's name.
fn reply_with_one_answer() -> Vec<u8> {
    let mut buf = header_bytes(0x1234, 0x8180, 1, 1, 0, 0);
    buf.extend_from_slice(&EXAMPLE_COM);
    buf.extend_from_slice(&[0, 1, 0, 1]);
    buf.extend_from_slice(&[0xC0, 0x0C]);
    buf.extend_from_slice(&[0, 1, 0, 1]);
    buf.extend_from_slice(&[0, 0, 0x0E, 0x10]);
    buf.extend_from_slice(&[0, 4, 93, 184, 216, 34]);
    buf
}

#[test]
fn new_builds_a_fresh_query() {
    let msg = DnsMessage::new("example.com".to_string());
    assert_eq!(
        msg.header,
        DnsHeader {
            identification: 0x1234,
            flags: 0x0100,
            no_of_questions: 1,
            no_of_answers_rr: 0,
            no_of_authority_rr: 0,
            no_of_additional_rr: 0,
        }
    );
    assert_eq!(
        msg.question,
        Some(DnsQuestion { qname: "example.com".to_string(), qtype: 28, qclass: 1 })
    );
    assert!(msg.answers.is_empty());
    assert!(msg.authority.is_empty());
    assert!(msg.additional.is_empty());
    assert_eq!(DEFAULT_ID, 0x1234);
    assert_eq!(FLAGS_RECURSION_DESIRED, 0x0100);
    assert_eq!(TYPE_AAAA, 28);
    assert_eq!(CLASS_IN, 1);
}

#[test]
fn with_type_sets_the_record_type() {
    let msg = DnsMessage::with_type("example.org".to_string(), 15);
    let q = msg.question.unwrap();
    assert_eq!(q.qname, "example.org");
    assert_eq!(q.qtype, 15);
    assert_eq!(q.qclass, 1);
    assert_eq!(msg.header.no_of_questions, 1);
}

#[test]
fn encodes_example_com() {
    let bytes = DnsMessage::new("example.com".to_string()).to_bytes().unwrap();
    let mut expected = vec![0x12, 0x34, 0x01, 0x00, 0, 1, 0, 0, 0, 0, 0, 0];
    expected.extend_from_slice(&EXAMPLE_COM);
    expected.extend_from_slice(&[0, 28, 0, 1]);
    assert_eq!(bytes, expected);
    assert_eq!(&bytes[12..25], &EXAMPLE_COM[..]);
}

#[test]
fn encode_name_writes_length_prefixed_labels() {
    assert_eq!(encode_name(b"example.com"), Ok(EXAMPLE_COM.to_vec()));
    assert_eq!(encode_name(b"a"), Ok(vec![1, b'a', 0]));
    assert_eq!(encode_name(b"a.bc.def"), Ok(vec![1, b'a', 2, b'b', b'c', 3, b'd', b'e', b'f', 0]));
}

#[test]
fn encode_name_refuses_empty_labels() {
    assert_eq!(encode_name(b""), Err(DnsError::InvalidName));
    assert_eq!(encode_name(b"."), Err(DnsError::InvalidName));
    assert_eq!(encode_name(b"a..b"), Err(DnsError::InvalidName));
    assert_eq!(encode_name(b".a"), Err(DnsError::InvalidName));
    assert_eq!(encode_name(b"example.com."), Err(DnsError::InvalidName));
}

#[test]
fn encode_name_label_length_limit() {
    let ok = "a".repeat(63);
    let mut expected = vec![63u8];
    expected.extend_from_slice(ok.as_bytes());
    expected.push(0);
    assert_eq!(encode_name(ok.as_bytes()), Ok(expected));
    let long = "a".repeat(64);
    assert_eq!(encode_name(long.as_bytes()), Err(DnsError::InvalidName));
    let inner = format!("ok.{}.com", "b".repeat(64));
    assert_eq!(encode_name(inner.as_bytes()), Err(DnsError::InvalidName));
}

#[test]
fn label_length_counts_octets_not_characters() {
    // 32 two-octet characters make 64 octets.
    let long = "é".repeat(32);
    assert_eq!(DnsMessage::new(long).to_bytes(), Err(DnsError::InvalidName));
    let ok = format!("{}a", "é".repeat(31));
    let bytes = DnsMessage::new(ok.clone()).to_bytes().unwrap();
    assert_eq!(bytes[12], 63);
    assert_eq!(&bytes[13..76], ok.as_bytes());
}

#[test]
fn to_bytes_refuses_an_invalid_name() {
    assert_eq!(DnsMessage::new(String::new()).to_bytes(), Err(DnsError::InvalidName));
    assert_eq!(DnsMessage::new("a..b".to_string()).to_bytes(), Err(DnsError::InvalidName));
}

#[test]
fn to_bytes_without_a_question_writes_the_header() {
    let msg = DnsMessage {
        header: DnsHeader {
            identification: 0xBEEF,
            flags: 0x8000,
            no_of_questions: 0,
            no_of_answers_rr: 0,
            no_of_authority_rr: 0,
            no_of_additional_rr: 0,
        },
        question: None,
        answers: Vec::new(),
        authority: Vec::new(),
        additional: Vec::new(),
    };
    assert_eq!(msg.to_bytes(), Ok(vec![0xBE, 0xEF, 0x80, 0, 0, 0, 0, 0, 0, 0, 0, 0]));
}

#[test]
fn round_trip_of_a_query() {
    for name in ["example.com", "Example.COM", "a", "www.sub-domain.example.org", "bücher.example"] {
        for qtype in [1u16, 2, 5, 15, 28, 0xFFFF] {
            let msg = DnsMessage::with_type(name.to_string(), qtype);
            let bytes = msg.to_bytes().unwrap();
            let back = DnsMessage::from_bytes(&bytes).unwrap();
            assert_eq!(back, msg);
            assert_eq!(back.header.no_of_questions, 1);
            assert_eq!(back.question.as_ref().unwrap().qname, name);
            assert_eq!(back.question.as_ref().unwrap().qtype, qtype);
            assert_eq!(back.question.as_ref().unwrap().qclass, 1);
        }
    }
}

#[test]
fn round_trip_keeps_header_as_it_is() {
    let mut msg = DnsMessage::new("example.com".to_string());
    msg.header.identification = 0xABCD;
    msg.header.flags = 0x8583;
    let back = DnsMessage::from_bytes(&msg.to_bytes().unwrap()).unwrap();
    assert_eq!(back, msg);
}

#[test]
fn pointer_resolution() {
    let mut buf = vec![0u8; 20];
    buf.extend_from_slice(&EXAMPLE_COM);
    buf.extend_from_slice(&[0xC0, 0x14]);
    buf.extend_from_slice(&[0, 1, 0, 1]);
    assert_eq!(decode_name(&buf, 33), Ok(("example.com".to_string(), 35)));
    assert_eq!(
        parse_name(&buf, 33),
        Ok((vec![b"example".to_vec(), b"com".to_vec()], 35))
    );
    // Read in place, the name ends behind its closing zero.
    assert_eq!(decode_name(&buf, 20), Ok(("example.com".to_string(), 33)));
}

#[test]
fn pointer_in_a_record_name() {
    let mut buf = vec![0u8; 20];
    buf.extend_from_slice(&EXAMPLE_COM);
    buf.extend_from_slice(&[0xC0, 0x14]);
    buf.extend_from_slice(&[0, 1, 0, 1, 0, 0, 1, 0, 0, 2, 0xAA, 0xBB]);
    let (rr, next) = parse_record(&buf, 33).unwrap();
    assert_eq!(
        rr,
        ResourceRecord {
            name: "example.com".to_string(),
            rr_type: 1,
            class: 1,
            ttl: 256,
            rdlength: 2,
            rdata: vec![0xAA, 0xBB],
        }
    );
    assert_eq!(next, 47);
    assert_eq!(next, buf.len());
}

#[test]
fn labels_followed_by_a_pointer() {
    let mut buf = EXAMPLE_COM.to_vec();
    buf.extend_from_slice(&[3, b'w', b'w', b'w', 0xC0, 0x00, 0xFF]);
    assert_eq!(decode_name(&buf, 13), Ok(("www.example.com".to_string(), 19)));
    // A pointer into the middle of a name gives its tail.
    buf.extend_from_slice(&[2, b'n', b's', 0xC0, 0x08]);
    assert_eq!(decode_name(&buf, 20), Ok(("ns.com".to_string(), 25)));
}

#[test]
fn chain_of_pointers() {
    let mut buf = EXAMPLE_COM.to_vec();
    buf.extend_from_slice(&[0xC0, 0x00]);
    buf.extend_from_slice(&[0xC0, 0x0D]);
    buf.extend_from_slice(&[1, b'x', 0xC0, 0x0F]);
    assert_eq!(decode_name(&buf, 15), Ok(("example.com".to_string(), 17)));
    assert_eq!(decode_name(&buf, 17), Ok(("x.example.com".to_string(), 21)));
}

#[test]
fn pointer_uses_all_fourteen_bits() {
    let mut buf = vec![0u8; 0x0123];
    buf.extend_from_slice(&[2, b'h', b'i', 0]);
    buf.extend_from_slice(&[0xC1, 0x23]);
    assert_eq!(decode_name(&buf, 0x0127), Ok(("hi".to_string(), 0x0129)));
}

#[test]
fn root_name_is_empty_text() {
    assert_eq!(decode_name(&[0], 0), Ok((String::new(), 1)));
    assert_eq!(parse_name(&[0], 0), Ok((Vec::new(), 1)));
}

#[test]
fn cycle_guard() {
    // A pointer to itself.
    assert_eq!(decode_name(&[0xC0, 0x00], 0), Err(DnsError::MalformedPointer));
    // A pointer forwards.
    assert_eq!(decode_name(&[0xC0, 0x02, 0x00], 0), Err(DnsError::MalformedPointer));
    // A pointer behind the end of the buffer.
    assert_eq!(decode_name(&[0, 0xC0, 0x40], 1), Err(DnsError::MalformedPointer));
    assert_eq!(decode_name(&[0, 0xFF, 0xFF], 1), Err(DnsError::MalformedPointer));
    // Two pointers, the first of which points forwards to the second.
    assert_eq!(decode_name(&[0xC0, 0x02, 0xC0, 0x00], 0), Err(DnsError::MalformedPointer));
}

#[test]
fn cycle_through_a_label() {
    // The pointer at 2 points backwards to a label that runs into it again.
    let buf = [1, b'a', 0xC0, 0x00];
    assert_eq!(decode_name(&buf, 2), Err(DnsError::MalformedPointer));
    assert_eq!(decode_name(&buf, 0), Err(DnsError::MalformedPointer));
    assert_eq!(parse_name(&buf, 0), Err(DnsError::MalformedPointer));
}

#[test]
fn decode_fails_on_a_pointer_to_itself() {
    let mut buf = header_bytes(1, 0x8180, 1, 0, 0, 0);
    buf.extend_from_slice(&[0xC0, 0x0C, 0, 1, 0, 1]);
    assert_eq!(DnsMessage::from_bytes(&buf), Err(DnsError::MalformedPointer));
    let mut buf = header_bytes(1, 0x8180, 1, 1, 0, 0);
    buf.extend_from_slice(&EXAMPLE_COM);
    buf.extend_from_slice(&[0, 1, 0, 1]);
    buf.extend_from_slice(&[0xC0, 0x1D, 0, 1, 0, 1, 0, 0, 0, 0, 0, 0]);
    assert_eq!(DnsMessage::from_bytes(&buf), Err(DnsError::MalformedPointer));
}

#[test]
fn count_driven_parsing() {
    let mut buf = reply_with_one_answer();
    assert!(DnsMessage::from_bytes(&buf).is_ok());
    buf[7] = 2;
    assert_eq!(DnsMessage::from_bytes(&buf), Err(DnsError::Truncated));
}

#[test]
fn boundary_label_of_63_at_the_end() {
    assert_eq!(decode_name(&[63], 0), Err(DnsError::Truncated));
    let mut buf = vec![63u8];
    buf.extend_from_slice(&[b'a'; 62]);
    assert_eq!(decode_name(&buf, 0), Err(DnsError::Truncated));
    buf.push(b'a');
    // The label is whole, but the name is not closed.
    assert_eq!(decode_name(&buf, 0), Err(DnsError::Truncated));
    buf.push(0);
    assert_eq!(decode_name(&buf, 0), Ok(("a".repeat(63), 65)));
    let mut msg = header_bytes(1, 0, 1, 0, 0, 0);
    msg.push(63);
    msg.extend_from_slice(b"short");
    assert_eq!(DnsMessage::from_bytes(&msg), Err(DnsError::Truncated));
}

#[test]
fn decoding_twice_gives_equal_messages() {
    let buf = reply_with_one_answer();
    let first = DnsMessage::from_bytes(&buf);
    let second = DnsMessage::from_bytes(&buf);
    assert!(first.is_ok());
    assert_eq!(first, second);
    let bad = [0u8; 5];
    assert_eq!(DnsMessage::from_bytes(&bad), DnsMessage::from_bytes(&bad));
}

#[test]
fn decodes_a_reply() {
    let msg = DnsMessage::from_bytes(&reply_with_one_answer()).unwrap();
    assert_eq!(
        msg,
        DnsMessage {
            header: DnsHeader {
                identification: 0x1234,
                flags: 0x8180,
                no_of_questions: 1,
                no_of_answers_rr: 1,
                no_of_authority_rr: 0,
                no_of_additional_rr: 0,
            },
            question: Some(DnsQuestion { qname: "example.com".to_string(), qtype: 1, qclass: 1 }),
            answers: vec![ResourceRecord {
                name: "example.com".to_string(),
                rr_type: 1,
                class: 1,
                ttl: 3600,
                rdlength: 4,
                rdata: vec![93, 184, 216, 34],
            }],
            authority: Vec::new(),
            additional: Vec::new(),
        }
    );
}

#[test]
fn decodes_all_three_record_lists() {
    let mut buf = header_bytes(7, 0x8400, 1, 1, 2, 1);
    buf.extend_from_slice(&EXAMPLE_COM);
    buf.extend_from_slice(&[0, 2, 0, 1]);
    for (rr_type, ttl, data) in
        [(2u16, 1u32, vec![1u8]), (2, 0x01020304, vec![]), (6, 0xFFFFFFFF, vec![9, 8, 7]), (1, 0, vec![1, 2, 3, 4])]
    {
        buf.extend_from_slice(&[0xC0, 0x0C]);
        buf.extend_from_slice(&rr_type.to_be_bytes());
        buf.extend_from_slice(&[0, 1]);
        buf.extend_from_slice(&ttl.to_be_bytes());
        buf.extend_from_slice(&(data.len() as u16).to_be_bytes());
        buf.extend_from_slice(&data);
    }
    // What follows the last record is not read.
    buf.extend_from_slice(&[0xFF, 0xFF, 0xFF]);
    let msg = DnsMessage::from_bytes(&buf).unwrap();
    assert_eq!(msg.answers.len(), 1);
    assert_eq!(msg.authority.len(), 2);
    assert_eq!(msg.additional.len(), 1);
    assert_eq!(msg.answers[0].rdata, vec![1]);
    assert_eq!(msg.authority[0].ttl, 0x01020304);
    assert_eq!(msg.authority[0].rdlength, 0);
    assert!(msg.authority[0].rdata.is_empty());
    assert_eq!(msg.authority[1].rr_type, 6);
    assert_eq!(msg.authority[1].ttl, 0xFFFFFFFF);
    assert_eq!(msg.authority[1].rdata, vec![9, 8, 7]);
    assert_eq!(msg.additional[0].rdata, vec![1, 2, 3, 4]);
    for rr in msg.answers.iter().chain(&msg.authority).chain(&msg.additional) {
        assert_eq!(rr.name, "example.com");
        assert_eq!(rr.rdlength as usize, rr.rdata.len());
    }
}

#[test]
fn decoded_counts_agree_with_the_lists() {
    let msg = DnsMessage::from_bytes(&reply_with_one_answer()).unwrap();
    assert_eq!(msg.header.no_of_answers_rr as usize, msg.answers.len());
    assert_eq!(msg.header.no_of_authority_rr as usize, msg.authority.len());
    assert_eq!(msg.header.no_of_additional_rr as usize, msg.additional.len());
    assert_eq!(msg.header.no_of_questions >= 1, msg.question.is_some());
}

#[test]
fn no_question_is_surfaced_as_none() {
    let buf = header_bytes(9, 0x8000, 0, 0, 0, 0);
    let msg = DnsMessage::from_bytes(&buf).unwrap();
    assert_eq!(msg.question, None);
    assert_eq!(msg.header.no_of_questions, 0);
    assert_eq!(msg.single_question(), Err(DnsError::UnexpectedQuestionCount));
}

#[test]
fn several_questions_keep_the_first() {
    let mut buf = header_bytes(9, 0, 2, 0, 0, 0);
    buf.extend_from_slice(&EXAMPLE_COM);
    buf.extend_from_slice(&[0, 1, 0, 1]);
    buf.extend_from_slice(&[3, b'o', b'r', b'g', 0, 0, 28, 0, 3]);
    let msg = DnsMessage::from_bytes(&buf).unwrap();
    assert_eq!(msg.header.no_of_questions, 2);
    assert_eq!(
        msg.question,
        Some(DnsQuestion { qname: "example.com".to_string(), qtype: 1, qclass: 1 })
    );
    assert_eq!(msg.single_question(), Err(DnsError::UnexpectedQuestionCount));
    // The second question is read all the same: without it the buffer is short.
    buf.truncate(buf.len() - 1);
    assert_eq!(DnsMessage::from_bytes(&buf), Err(DnsError::Truncated));
}

#[test]
fn single_question_of_a_query() {
    let msg = DnsMessage::new("example.com".to_string());
    let q = msg.single_question().unwrap();
    assert_eq!(q.qname, "example.com");
    let mut odd = DnsMessage::new("example.com".to_string());
    odd.question = None;
    assert_eq!(odd.single_question(), Err(DnsError::UnexpectedQuestionCount));
}

#[test]
fn truncated_header() {
    assert_eq!(DnsMessage::from_bytes(&[]), Err(DnsError::Truncated));
    assert_eq!(DnsMessage::from_bytes(&[0; 11]), Err(DnsError::Truncated));
    assert!(DnsMessage::from_bytes(&[0; 12]).is_ok());
}

#[test]
fn truncated_question() {
    let mut buf = header_bytes(1, 0, 1, 0, 0, 0);
    assert_eq!(DnsMessage::from_bytes(&buf), Err(DnsError::Truncated));
    buf.extend_from_slice(&EXAMPLE_COM);
    assert_eq!(DnsMessage::from_bytes(&buf), Err(DnsError::Truncated));
    buf.extend_from_slice(&[0, 1, 0]);
    assert_eq!(DnsMessage::from_bytes(&buf), Err(DnsError::Truncated));
    assert_eq!(parse_question(&buf, 12), Err(DnsError::Truncated));
    buf.push(1);
    assert!(DnsMessage::from_bytes(&buf).is_ok());
    assert_eq!(
        parse_question(&buf, 12),
        Ok((DnsQuestion { qname: "example.com".to_string(), qtype: 1, qclass: 1 }, 29))
    );
}

#[test]
fn truncated_record() {
    let whole = reply_with_one_answer();
    for cut in 1..=16 {
        let buf = &whole[..whole.len() - cut];
        assert_eq!(DnsMessage::from_bytes(buf), Err(DnsError::Truncated), "cut {}", cut);
    }
    assert_eq!(parse_records(&whole, 29, 1).map(|(v, p)| (v.len(), p)), Ok((1, 45)));
    assert_eq!(parse_records(&whole, 29, 0), Ok((Vec::new(), 29)));
    assert_eq!(parse_records(&whole, 45, 1), Err(DnsError::Truncated));
}

#[test]
fn truncated_pointer() {
    assert_eq!(decode_name(&[0xC0], 0), Err(DnsError::Truncated));
    assert_eq!(decode_name(&[0, 0xC0], 1), Err(DnsError::Truncated));
    assert_eq!(decode_name(&[0], 1), Err(DnsError::Truncated));
    assert_eq!(decode_name(&[], 0), Err(DnsError::Truncated));
    assert_eq!(decode_name(&[0], usize::MAX), Err(DnsError::Truncated));
}

#[test]
fn long_length_octets_are_taken_as_lengths() {
    let mut buf = vec![64u8];
    buf.extend_from_slice(&[b'z'; 64]);
    buf.push(0);
    assert_eq!(decode_name(&buf, 0), Ok(("z".repeat(64), 66)));
    let mut buf = vec![191u8];
    buf.extend_from_slice(&[b'y'; 191]);
    buf.push(0);
    assert_eq!(decode_name(&buf, 0), Ok(("y".repeat(191), 193)));
}

#[test]
fn malformed_text_is_replaced() {
    let buf = [2, 0xFF, b'a', 1, 0x80, 0];
    assert_eq!(decode_name(&buf, 0), Ok(("\u{FFFD}a.\u{FFFD}".to_string(), 6)));
    assert_eq!(parse_name(&buf, 0), Ok((vec![vec![0xFF, b'a'], vec![0x80]], 6)));
    assert_eq!(labels_to_text(&vec![vec![0xC3], vec![0xC3, 0xA9]]), "\u{FFFD}.é");
}

#[test]
fn labels_to_text_reads_utf8() {
    assert_eq!(labels_to_text(&Vec::new()), "");
    assert_eq!(labels_to_text(&vec![b"example".to_vec(), b"com".to_vec()]), "example.com");
    assert_eq!(labels_to_text(&vec!["bücher".as_bytes().to_vec()]), "bücher");
}

#[test]
fn join_labels_puts_dots_between() {
    assert_eq!(join_labels(&Vec::new()), "");
    assert_eq!(join_labels(&vec!["a".to_string()]), "a");
    assert_eq!(join_labels(&vec!["a".to_string(), "b".to_string()]), "a.b");
    assert_eq!(
        join_labels(&vec!["www".to_string(), String::new(), "com".to_string()]),
        "www..com"
    );
}

#[test]
fn big_endian_integers() {
    let mut out = vec![0xAA];
    put_u16(&mut out, 0x1234);
    put_u16(&mut out, 0x00FF);
    put_u16(&mut out, 0xFF00);
    assert_eq!(out, vec![0xAA, 0x12, 0x34, 0x00, 0xFF, 0xFF, 0x00]);
    assert_eq!(read_u16(&out, 1), Some(0x1234));
    assert_eq!(get_u16(&out, 1), 0x1234);
    assert_eq!(read_u16(&out, 5), Some(0xFF00));
    assert_eq!(read_u16(&out, 6), None);
    assert_eq!(read_u16(&out, usize::MAX), None);
    assert_eq!(read_u16(&[1], 0), None);
    assert_eq!(read_u32(&out, 1), Some(0x123400FF));
    assert_eq!(read_u32(&out, 3), Some(0x00FFFF00));
    assert_eq!(read_u32(&out, 4), None);
    assert_eq!(read_u32(&[0xFF, 0xFF, 0xFF, 0xFF], 0), Some(u32::MAX));
    assert_eq!(read_u32(&[1, 2, 3], 0), None);
}

#[test]
fn error_messages() {
    let all = [
        DnsError::InvalidName,
        DnsError::Truncated,
        DnsError::MalformedPointer,
        DnsError::UnexpectedQuestionCount,
    ];
    for (i, a) in all.iter().enumerate() {
        assert!(!a.message().is_empty());
        for b in &all[i + 1..] {
            assert_ne!(a.message(), b.message());
        }
    }
    assert_eq!(DnsError::MalformedPointer.message(), "malformed compression pointer");
}

#[test]
fn decodes_a_buffer_of_the_classic_size() {
    let mut buf = reply_with_one_answer();
    buf.resize(512, 0);
    let msg = DnsMessage::from_bytes(&buf).unwrap();
    assert_eq!(msg.answers.len(), 1);
    assert_eq!(msg.answers[0].rdata, vec![93, 184, 216, 34]);
}

#[test]
fn long_chain_without_a_cycle_is_read() {
    // A name, then a hundred pointers, each to the one before it.
    let mut buf = vec![2, b'h', b'i', 0];
    let mut target: usize = 0;
    for _ in 0..100 {
        let at = buf.len();
        buf.push(0xC0 | (target >> 8) as u8);
        buf.push((target & 0xFF) as u8);
        target = at;
    }
    let last = buf.len() - 2;
    assert_eq!(decode_name(&buf, last), Ok(("hi".to_string(), buf.len())));
    // Closing the chain into a ring makes it endless.
    buf[4] = 0xC0;
    buf[5] = 0x06;
    assert_eq!(decode_name(&buf, last), Err(DnsError::MalformedPointer));
}
