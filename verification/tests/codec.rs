//! Wire-codec tests: labels, names (compression on both read and write),
//! headers, questions, resource records and whole datagrams.

use nodns::compression::{LabelTree, ReferencedLabel};
use nodns::datagram::Datagram;
use nodns::enums::{CLASS, TYPE};
use nodns::header::{Header, OPCODE, RCODE};
use nodns::label::Label;
use nodns::name::Name;
use nodns::question::Question;
use nodns::resource_record::ResourceRecord;
use nodns::DecodeError;

#[test]
fn label_basic_unserialize_test() {
    let bytes = [3, b'w', b'w', b'w'];
    let (label, byte_read) = Label::unserialize(&bytes, 0).unwrap();
    assert_eq!(label.as_str(), "www".to_string());
    assert_eq!(byte_read, bytes.len());

    let bytes = [0, 3, b'w', b'w', b'w'];
    let (label, byte_read) = Label::unserialize(&bytes, 1).unwrap();
    assert_eq!(label.as_str(), "www".to_string());
    assert_eq!(byte_read, bytes.len());
}

#[test]
fn label_basic_serialize_test() {
    let bytes = [3, b'w', b'w', b'w'];
    let mut result = Vec::new();
    Label::from("www").serialize(&mut result);
    assert_eq!(result, bytes);
}

#[test]
fn label_rejects_bad_bytes() {
    // an underscore is neither alphanumeric nor a hyphen
    let bytes = [3, b'w', b'_', b'w'];
    assert_eq!(Label::unserialize(&bytes, 0), Err(DecodeError::LabelInvalid));
    // a label of digits alone is invalid
    let bytes = [3, b'1', b'2', b'3'];
    assert_eq!(Label::unserialize(&bytes, 0), Err(DecodeError::LabelInvalid));
    // the length byte runs past the buffer
    let bytes = [5, b'w', b'w'];
    assert_eq!(Label::unserialize(&bytes, 0), Err(DecodeError::Truncated));
}

#[test]
fn test_basic_unserialize() {
    let value: Vec<u8> = vec![
        4, 3, b'w', b'w', b'w', 6, b'g', b'o', b'o', b'g', b'l', b'e', 3, b'c', b'o', b'm', 0,
    ];
    let offset = value.len();
    let (name, i) = Name::unserialize(&value, 1).unwrap();
    assert_eq!(name.get_string(), "www.google.com".to_string());
    assert_eq!(i as usize, offset);

    let value: Vec<u8> = vec![
        4, 3, b'w', b'w', b'w', 6, b'g', b'o', b'o', b'g', b'l', b'e', 3, b'c', b'o', b'm', 0,
        0xD, 0xE, 0xA, 0xD, 0xB, 0xE, 0xE, 0xF,
    ];
    let offset = value.len() - 8;
    let (name, i) = Name::unserialize(&value, 5).unwrap();
    assert_eq!(name.get_string(), "google.com".to_string());
    assert_eq!(i as usize, offset);
}

#[test]
fn test_referenced_unserialize() {
    let value: Vec<u8> = vec![
        0xc0, 0x07, 4, 3, b'w', b'w', b'w', 6, b'g', b'o', b'o', b'g', b'l', b'e', 3, b'c', b'o',
        b'm', 0,
    ];
    let offset = 2;
    let (name, i) = Name::unserialize(&value, 0).unwrap();
    assert_eq!(name.get_string(), "google.com".to_string());
    assert_eq!(i as usize, offset);

    let value: Vec<u8> = vec![
        4, b't', b'e', b's', b't', 0xc0, 0x0c, 4, 3, b'w', b'w', b'w', 6, b'g', b'o', b'o', b'g',
        b'l', b'e', 3, b'c', b'o', b'm', 0,
    ];
    let offset = 7;
    let (name, i) = Name::unserialize(&value, 0).unwrap();
    assert_eq!(name.get_string(), "test.google.com".to_string());
    assert_eq!(i as usize, offset);
}

#[test]
fn test_empty_unserialize() {
    let value: Vec<u8> = vec![0, 0, 0, 0];
    let expected_offset = 1;
    let (name, offset) = Name::unserialize(&value, 0).unwrap();
    assert_eq!(name.get_string(), "".to_string());
    assert_eq!(offset, expected_offset);
}

#[test]
fn test_serialize() {
    let name = Name::from("www.google.com");
    let expected = [
        3, b'w', b'w', b'w', 6, b'g', b'o', b'o', b'g', b'l', b'e', 3, b'c', b'o', b'm', 0,
    ];
    let mut bytes: Vec<u8> = Vec::with_capacity(expected.len());
    let mut lt: LabelTree = LabelTree::default();
    name.serialize(&mut bytes, &mut lt);
    assert_eq!(bytes, expected);
}

#[test]
fn name_round_trip_with_fresh_table() {
    // decoding what was just encoded gives the name back and consumes
    // exactly the emitted bytes
    let name = Name::from("mail.example.org");
    let mut bytes: Vec<u8> = Vec::new();
    let mut lt = LabelTree::default();
    name.serialize(&mut bytes, &mut lt);
    let (back, end) = Name::unserialize(&bytes, 0).unwrap();
    assert_eq!(back, name);
    assert_eq!(end, bytes.len());
}

#[test]
fn name_compression_reuses_suffix() {
    // the second name points back into the first one's bytes
    let mut bytes: Vec<u8> = Vec::new();
    let mut lt = LabelTree::default();
    Name::from("www.example.org").serialize(&mut bytes, &mut lt);
    let first_len = bytes.len();
    Name::from("mail.example.org").serialize(&mut bytes, &mut lt);
    // "mail" (5 bytes) plus a two-byte pointer
    assert_eq!(bytes.len(), first_len + 7);
    let (back, _) = Name::unserialize(&bytes, first_len).unwrap();
    assert_eq!(back, Name::from("mail.example.org"));
}

#[test]
fn pointer_loop_returns_error() {
    // two pointers referring to each other can never terminate; the decoder
    // must give a decode error, not crash
    let bytes = [0xC0, 0x02, 0xC0, 0x00];
    assert_eq!(Name::unserialize(&bytes, 0), Err(DecodeError::PointerLoop));
    // a pointer at itself
    let bytes = [0xC0, 0x00];
    assert_eq!(Name::unserialize(&bytes, 0), Err(DecodeError::PointerLoop));
}

#[test]
fn overlong_name_returns_error() {
    // 5 labels of 63 bytes each exceed the 255-byte cap
    let mut bytes: Vec<u8> = Vec::new();
    for _ in 0..5 {
        bytes.push(63);
        for _ in 0..63 {
            bytes.push(b'a');
        }
    }
    bytes.push(0);
    assert_eq!(Name::unserialize(&bytes, 0), Err(DecodeError::NameTooLong));
}

#[test]
fn serialize_unserialize_test() {
    let bytes = [
        0xff, 0xff, 0xff, 0xff, 0xff, 0xff, 0xff, 0xff, 0xff, 0xff, 0xff, 0xff,
    ];
    let header = Header::unserialize(&bytes);
    assert_eq!(bytes.to_vec(), header.serialize());

    let bytes = [
        0xaa, 0xaa, 0xaa, 0xaa, 0xaa, 0xaa, 0xaa, 0xaa, 0xaa, 0xaa, 0xaa, 0xaa,
    ];
    let header = Header::unserialize(&bytes);
    assert_eq!(bytes.to_vec(), header.serialize());
}

#[test]
fn header_accessors_round_trip() {
    let bytes = [0u8; 12];
    let mut header = Header::unserialize(&bytes);
    header.set_id(0x4444);
    assert_eq!(header.get_id(), 0x4444);
    header.set_question(false);
    assert!(!header.is_question());
    header.set_recursion_available(true);
    assert!(header.is_recursion_available());
    header.set_rcode(RCODE::NXDomain);
    assert_eq!(header.get_rcode(), RCODE::NXDomain);
    // setting one field leaves the others alone
    assert_eq!(header.get_id(), 0x4444);
    assert!(!header.is_question());
    assert!(header.is_recursion_available());
    assert!(!header.is_authoritative_answer());
    assert!(!header.is_truncated());
    assert!(!header.is_recursion_desired());
    assert!(!header.is_authenticated_data());
    assert!(!header.is_checked_data());
    header.set_question_count(1);
    header.set_answer_count(2);
    header.set_authority_count(3);
    header.set_additional_count(4);
    assert_eq!(header.question_count(), 1);
    assert_eq!(header.answer_count(), 2);
    assert_eq!(header.authority_count(), 3);
    assert_eq!(header.additional_count(), 4);
}

#[test]
fn fresh_headers_have_documented_fields() {
    let q = Header::new_question();
    assert!(q.is_question());
    assert_eq!(q.question_count(), 1);
    assert_eq!(q.answer_count(), 0);
    assert!(q.is_recursion_available());
    let r = Header::new_reply();
    assert!(!r.is_question());
    assert_eq!(r.question_count(), 1);
    assert_eq!(r.answer_count(), 0);
    assert!(r.is_recursion_available());
    assert_eq!(r.get_rcode(), RCODE::NoError);
}

#[test]
fn type_class_opcode_rcode_round_trip() {
    // every known and unknown value survives a decode-encode round trip
    for v in [0u16, 1, 2, 5, 15, 28, 255, 0x4422, 65535] {
        assert_eq!(TYPE::from_u16(v).to_u16(), v);
        assert_eq!(CLASS::from_u16(v).to_u16(), v);
    }
    for v in [0u8, 1, 2, 3, 4, 5, 6, 7, 15] {
        assert_eq!(OPCODE::from_u8(v).to_u8(), v);
        assert_eq!(RCODE::from_u8(v).to_u8(), v);
    }
    // and the canonical values survive the other direction
    assert_eq!(TYPE::from_u16(TYPE::A.to_u16()), TYPE::A);
    assert_eq!(TYPE::from_u16(TYPE::AAAA.to_u16()), TYPE::AAAA);
    assert_eq!(CLASS::from_u16(CLASS::IN.to_u16()), CLASS::IN);
    assert_eq!(OPCODE::from_u8(OPCODE::STATUS.to_u8()), OPCODE::STATUS);
    assert_eq!(RCODE::from_u8(RCODE::NXDomain.to_u8()), RCODE::NXDomain);
}

#[test]
fn question_basic_unserialize_test() {
    let question_bytes = [
        3, b'w', b'w', b'w', 6, b'g', b'o', b'o', b'g', b'l', b'e', 3, b'c', b'o', b'm', 0, 0x44,
        0x22, 0x01, 0x10,
    ];
    let (question, offset) = Question::unserialize(&question_bytes, 0).unwrap();
    assert_eq!(offset, question_bytes.len());
    assert_eq!(question.qname.get_string(), "www.google.com".to_string());
    assert_eq!(question.get_type().to_u16(), 0x4422);
    assert_eq!(question.get_class().to_u16(), 0x0110);

    let question_bytes = [
        0, 0, 0, 0, 3, b'w', b'w', b'w', 6, b'g', b'o', b'o', b'g', b'l', b'e', 3, b'c', b'o',
        b'm', 0, 0x44, 0x22, 0x01, 0x10,
    ];
    let (question, offset) = Question::unserialize(&question_bytes, 4).unwrap();
    assert_eq!(offset, question_bytes.len());
    assert_eq!(question.qname.get_string(), "www.google.com".to_string());
    assert_eq!(question.get_type().to_u16(), 0x4422);
    assert_eq!(question.get_class().to_u16(), 0x0110);
}

#[test]
fn resource_record_basic_unserialize_test() {
    let rr_bytes = [
        3, b'w', b'w', b'w', 6, b'g', b'o', b'o', b'g', b'l', b'e', 3, b'c', b'o', b'm', 0, 0x00,
        0x01, 0x00, 0x01, 0, 0, 0x0E, 0x10, 0x00, 0x04, 172, 217, 13, 132,
    ];
    let expected_offset = rr_bytes.len();
    let (rr, offset) = ResourceRecord::unserialize(&rr_bytes, 0).unwrap();
    assert_eq!(offset, expected_offset);
    assert_eq!(rr.name.get_string(), "www.google.com".to_string());
    assert_eq!(rr.get_type().to_u16(), 1);
    assert_eq!(rr.get_class().to_u16(), 1);
    assert_eq!(rr.get_ttl(), 3600);
    assert_eq!(rr.get_rdata_length(), 4);
    assert_eq!(rr.get_rdata().as_slice(), [172, 217, 13, 132]);
}

#[test]
fn weird_unserialize_test() {
    let rr_bytes = [0, 0, 0, 0, 0, 0, 0, 0, 0, 15, 0, 4, 127, 0, 0, 1];
    let expected_offset = rr_bytes.len();
    let (rr, offset) = ResourceRecord::unserialize(&rr_bytes, 1).unwrap();
    assert_eq!(offset, expected_offset);
    assert_eq!(rr.name.get_string(), "".to_string());
    assert_eq!(rr.get_type().to_u16(), 0);
    assert_eq!(rr.get_class().to_u16(), 0);
    assert_eq!(rr.get_ttl(), 15);
    assert_eq!(rr.get_rdata_length(), 4);
    assert_eq!(rr.get_rdata().as_slice(), [127, 0, 0, 1]);
}

#[test]
fn resource_record_basic_serialize_test() {
    let rr_bytes = [
        3, b'w', b'w', b'w', 6, b'g', b'o', b'o', b'g', b'l', b'e', 3, b'c', b'o', b'm', 0, 0x00,
        0x01, 0x00, 0x01, 0, 0, 0x0E, 0x10, 0x00, 0x04, 172, 217, 13, 132,
    ];
    let rr = ResourceRecord {
        name: Name::from("www.google.com"),
        rtype: 1,
        rclass: 1,
        ttl: 3600,
        rdata: vec![172, 217, 13, 132],
    };
    let mut bytes: Vec<u8> = Vec::with_capacity(rr_bytes.len());
    let mut lt = LabelTree::default();
    rr.serialize(&mut bytes, &mut lt);
    assert_eq!(rr_bytes, bytes.as_slice());
}

#[test]
fn test_tree_insertion() {
    let mut lt: LabelTree = LabelTree::default();

    let referenced_labels = vec![
        ReferencedLabel::new(Label::from("dev"), 13),
        ReferencedLabel::new(Label::from("antoinec"), 4),
        ReferencedLabel::new(Label::from("www"), 0),
    ];
    lt.insert(referenced_labels);
    let referenced_labels = vec![
        ReferencedLabel::new(Label::from("dev"), 13),
        ReferencedLabel::new(Label::from("charbonneau"), 4),
        ReferencedLabel::new(Label::from("www"), 0),
    ];
    lt.insert(referenced_labels);

    assert_eq!(
        lt.elements[4].referenced_label.label.as_str(),
        "charbonneau".to_string()
    );
    assert!(lt.elements[4].children.contains(&5));
    assert!(lt.elements[1].children.contains(&2));
    assert!(lt.elements[1].children.contains(&4));
}

#[test]
fn test_best_reference() {
    let mut lt: LabelTree = LabelTree::default();

    let referenced_labels = vec![
        ReferencedLabel::new(Label::from("dev"), 13),
        ReferencedLabel::new(Label::from("antoinec"), 4),
        ReferencedLabel::new(Label::from("www"), 0),
    ];
    lt.insert(referenced_labels);
    let referenced_labels = vec![
        ReferencedLabel::new(Label::from("dev"), 13),
        ReferencedLabel::new(Label::from("charbonneau"), 4),
        ReferencedLabel::new(Label::from("www"), 0),
    ];
    lt.insert(referenced_labels);

    let reference = lt.find_best_reference(&Name::from("mail.antoinec.dev"));

    assert_eq!(reference.index, 2);
    assert_eq!(reference.position, 4);
    assert!(reference.is_valid());
}

#[test]
fn basic_unserialize_serialize_test() {
    let datagram_bytes = [
        // header
        0x44, 0x44, 0b10000000, 0b00000000, 0x00, 0x01, 0x00, 0x01, 0x00, 0x00, 0x00, 0x00,
        // question 1
        3, b'w', b'w', b'w', 6, b'g', b'o', b'o', b'g', b'l', b'e', 3, b'c', b'o', b'm', 0x00,
        0x00, 0x01, 0x00, 0x01, // answer 1
        0xC0, 0x0C, 0x00, 0x01, 0x00, 0x01, 0x00, 0x00, 0x01, 0x68, 0x00, 0x04, 127, 0, 0, 1,
    ];
    let datagram = Datagram::unserialize(&datagram_bytes).unwrap();

    assert_eq!(datagram.serialize().as_slice(), datagram_bytes);
}

#[test]
fn basic_a_record_decode() {
    // a complete reply: one question, one answer whose name is a pointer to
    // offset 12; the answer resolves to the question's name
    let datagram_bytes = [
        0x44, 0x44, 0x80, 0x00, 0x00, 0x01, 0x00, 0x01, 0x00, 0x00, 0x00, 0x00, 3, b'w', b'w',
        b'w', 6, b'g', b'o', b'o', b'g', b'l', b'e', 3, b'c', b'o', b'm', 0x00, 0x00, 0x01, 0x00,
        0x01, 0xC0, 0x0C, 0x00, 0x01, 0x00, 0x01, 0x00, 0x00, 0x01, 0x68, 0x00, 0x04, 0x7F, 0x00,
        0x00, 0x01,
    ];
    let datagram = Datagram::unserialize(&datagram_bytes).unwrap();
    assert_eq!(datagram.header.get_id(), 0x4444);
    assert!(!datagram.header.is_question());
    assert_eq!(datagram.header.question_count(), 1);
    assert_eq!(datagram.header.answer_count(), 1);
    assert_eq!(
        datagram.questions[0].qname.get_string(),
        "www.google.com".to_string()
    );
    assert_eq!(datagram.questions[0].get_type().to_u16(), 1);
    assert_eq!(datagram.questions[0].get_class().to_u16(), 1);
    let answer = &datagram.answers[0];
    assert_eq!(answer.name.get_string(), "www.google.com".to_string());
    assert_eq!(answer.get_type().to_u16(), 1);
    assert_eq!(answer.get_class().to_u16(), 1);
    assert_eq!(answer.get_ttl(), 360);
    assert_eq!(answer.get_rdata().as_slice(), [0x7F, 0, 0, 1]);
    // re-encoding yields the exact input bytes
    assert_eq!(datagram.serialize().as_slice(), datagram_bytes);
}

#[test]
fn datagram_decode_rejects_truncated_input() {
    let too_short = [0x44, 0x44, 0x80, 0x00];
    assert!(Datagram::unserialize(&too_short).is_err());
    // header declares a question that is not there
    let missing_question = [
        0x44, 0x44, 0x80, 0x00, 0x00, 0x01, 0x00, 0x00, 0x00, 0x00, 0x00, 0x00,
    ];
    assert!(Datagram::unserialize(&missing_question).is_err());
}

#[test]
fn datagram_tolerates_trailing_bytes() {
    // a 1024-byte receive buffer leaves padding after the declared records
    let mut bytes = vec![
        0x44, 0x44, 0x80, 0x00, 0x00, 0x01, 0x00, 0x00, 0x00, 0x00, 0x00, 0x00, 3, b'w', b'w',
        b'w', 6, b'g', b'o', b'o', b'g', b'l', b'e', 3, b'c', b'o', b'm', 0x00, 0x00, 0x01, 0x00,
        0x01,
    ];
    bytes.resize(1024, 0);
    let datagram = Datagram::unserialize(&bytes).unwrap();
    assert_eq!(datagram.questions.len(), 1);
    assert_eq!(
        datagram.questions[0].qname.get_string(),
        "www.google.com".to_string()
    );
}

#[test]
fn reencoding_a_decoded_datagram_is_stable() {
    // encode, decode, encode again: same bytes, so equal length
    let rr = ResourceRecord {
        name: Name::from("www.example.org"),
        rtype: 1,
        rclass: 1,
        ttl: 300,
        rdata: vec![93, 184, 216, 34],
    };
    let question = Question {
        qname: Name::from("www.example.org"),
        qtype: 1,
        qclass: 1,
    };
    let mut header = Header::new_reply();
    header.set_answer_count(1);
    let datagram = Datagram {
        header,
        questions: vec![question],
        answers: vec![rr],
        authorities: Vec::new(),
        additionals: Vec::new(),
    };
    let first = datagram.serialize();
    let decoded = Datagram::unserialize(&first).unwrap();
    let second = decoded.serialize();
    assert!(second.len() <= first.len());
    assert_eq!(first, second);
}
