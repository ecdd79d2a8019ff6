use dns_wire::answer::Answer;
use dns_wire::bits::{take_bytes, take_u1, take_u16, take_u3, take_u32, take_u4, take_u8, BitPos};
use dns_wire::error::DnsError;
use dns_wire::header::{Header, Opcode, Rcode};
use dns_wire::message::Message;
use dns_wire::name::{get_deref_ptr, name_to_vec, parse_name};
use dns_wire::question::{Qclass, Qtype, Question};

fn header_bytes(id: u16, flags: u16, qd: u16, an: u16) -> Vec<u8> {
    let mut v = Vec::new();
    for x in [id, flags, qd, an, 0, 0] {
        v.push((x >> 8) as u8);
        v.push(x as u8);
    }
    v
}

fn push_name(v: &mut Vec<u8>, labels: &[&str]) {
    for l in labels {
        v.push(l.len() as u8);
        v.extend_from_slice(l.as_bytes());
    }
    v.push(0);
}

fn push_u16(v: &mut Vec<u8>, x: u16) {
    v.push((x >> 8) as u8);
    v.push(x as u8);
}

fn answer_packet(ty: u16, rdata: &[u8]) -> Vec<u8> {
    let mut v = header_bytes(7, 0x8180, 0, 1);
    push_name(&mut v, &["example", "com"]);
    push_u16(&mut v, ty);
    push_u16(&mut v, 1);
    v.extend_from_slice(&[0, 0, 0x0e, 0x10]);
    push_u16(&mut v, rdata.len() as u16);
    v.extend_from_slice(rdata);
    v
}

#[test]
fn cursor_reads_fields_most_significant_first() {
    let buf = [0b1010_1100u8, 0x12, 0x34, 0x56, 0x78, 0x9a];
    let (p, b) = take_u1(&buf, BitPos::at_byte(0)).unwrap();
    assert!(b);
    assert_eq!(p, BitPos { byte: 0, bit: 1 });
    let (p, v) = take_u3(&buf, p).unwrap();
    assert_eq!(v, 0b010);
    let (p, v) = take_u4(&buf, p).unwrap();
    assert_eq!(v, 0b1100);
    assert_eq!(p, BitPos { byte: 1, bit: 0 });
    let (p, v) = take_u16(&buf, p).unwrap();
    assert_eq!(v, 0x1234);
    let (_, v) = take_u8(&buf, p).unwrap();
    assert_eq!(v, 0x56);
    let (_, v) = take_u32(&buf, BitPos::at_byte(2)).unwrap();
    assert_eq!(v, 0x3456789a);
    let (p, v) = take_bytes(&buf, BitPos { byte: 0, bit: 4 }, 2).unwrap();
    assert_eq!(v, vec![0xc1, 0x23]);
    assert_eq!(p, BitPos { byte: 2, bit: 4 });
}

#[test]
fn cursor_reports_end_of_buffer() {
    let buf = [0xffu8, 0xff];
    assert_eq!(take_u32(&buf, BitPos::at_byte(0)), Err(DnsError::UnexpectedEndOfBuffer));
    assert_eq!(take_u16(&buf, BitPos { byte: 0, bit: 1 }), Err(DnsError::UnexpectedEndOfBuffer));
    assert_eq!(take_u1(&buf, BitPos::at_byte(2)), Err(DnsError::UnexpectedEndOfBuffer));
    assert_eq!(take_bytes(&buf, BitPos::at_byte(1), 2), Err(DnsError::UnexpectedEndOfBuffer));
}

#[test]
fn builder_query_round_trips() {
    let m = Message::build(4242, "www.example.com", "cname").unwrap();
    let bytes = m.serialize().unwrap();
    assert_eq!(bytes.len(), 12 + 17 + 4);
    let d = Message::deserialize(&bytes).unwrap();
    assert_eq!(d.header.id, 4242);
    assert!(d.header.rd);
    assert_eq!(d.header.qdcount, 1);
    assert_eq!(d.questions.len(), 1);
    assert_eq!(d.questions[0].qname, "www.example.com");
    assert_eq!(d.questions[0].qtype, Qtype::CNAME);
    assert_eq!(d.questions[0].qclass, Qclass::IN);
    assert!(d.answers.is_empty());
}

#[test]
fn name_round_trips_without_compression() {
    let wire = name_to_vec("www.example.com").unwrap();
    let mut expected = Vec::new();
    push_name(&mut expected, &["www", "example", "com"]);
    assert_eq!(wire, expected);
    let (p, name) = parse_name(&wire, BitPos::at_byte(0)).unwrap();
    assert_eq!(name, "www.example.com");
    assert_eq!(p, BitPos::at_byte(wire.len()));
}

#[test]
fn name_encoding_skips_empty_segments() {
    let mut expected = Vec::new();
    push_name(&mut expected, &["a", "b"]);
    assert_eq!(name_to_vec(".a..b.").unwrap(), expected);
    assert_eq!(name_to_vec("").unwrap(), vec![0]);
}

#[test]
fn name_encoding_refuses_long_label() {
    let long = "x".repeat(64);
    assert_eq!(name_to_vec(&long), Err(DnsError::LabelTooLong));
    let ok = "y".repeat(63);
    assert_eq!(name_to_vec(&ok).unwrap().len(), 65);
}

#[test]
fn compression_pointer_resolves() {
    let buf = [3u8, b'a', b'b', b'c', 0, 0xc0, 0x00];
    let (p, name) = parse_name(&buf, BitPos::at_byte(5)).unwrap();
    assert_eq!(name, "abc");
    assert_eq!(p, BitPos::at_byte(7));
}

#[test]
fn labels_before_pointer_are_joined_by_dot() {
    let buf = [7u8, b'e', b'x', b'a', b'm', b'p', b'l', b'e', 0, 3, b'w', b'w', b'w', 0xc0, 0x00];
    let (p, name) = parse_name(&buf, BitPos::at_byte(9)).unwrap();
    assert_eq!(name, "www.example");
    assert_eq!(p, BitPos::at_byte(15));
}

#[test]
fn pointer_cycle_is_refused() {
    let buf = [0xc0u8, 0x00];
    assert_eq!(parse_name(&buf, BitPos::at_byte(0)), Err(DnsError::PointerLoop));
}

#[test]
fn invalid_text_is_refused() {
    let buf = [2u8, 0xff, 0xfe, 0];
    assert_eq!(parse_name(&buf, BitPos::at_byte(0)), Err(DnsError::MalformedText));
}

#[test]
fn truncated_name_is_refused() {
    let buf = [5u8, b'a', b'b'];
    assert_eq!(parse_name(&buf, BitPos::at_byte(0)), Err(DnsError::UnexpectedEndOfBuffer));
}

#[test]
fn header_recursion_desired_only() {
    let mut h = Header::new();
    h.rd = true;
    let mut m = Message::new();
    m.header = h;
    let bytes = m.serialize().unwrap();
    assert_eq!(bytes, vec![0, 0, 0x01, 0, 0, 0, 0, 0, 0, 0, 0, 0]);
    let d = Message::deserialize(&bytes).unwrap();
    assert!(d.header.rd);
    assert!(!d.header.qr);
    assert!(!d.header.aa);
    assert!(!d.header.tc);
    assert!(!d.header.ra);
    assert_eq!(d.header.opcode, Opcode::Query);
}

#[test]
fn header_fields_round_trip() {
    let h = Header {
        id: 0xbeef,
        qr: true,
        opcode: Opcode::Status,
        aa: true,
        tc: false,
        rd: true,
        ra: true,
        z: 5,
        rcode: Rcode::Refused,
        qdcount: 0,
        ancount: 0,
        nscount: 3,
        arcount: 9,
    };
    let mut m = Message::new();
    m.header = h;
    let bytes = m.serialize().unwrap();
    assert_eq!(bytes, vec![0xbe, 0xef, 0x95, 0xd4, 0, 0, 0, 0, 0, 3, 0, 9]);
    let (_, d) = Header::deserialize(&bytes, BitPos::at_byte(0)).unwrap();
    assert_eq!(d, h);
}

#[test]
fn unsupported_opcode_and_rcode() {
    let bytes = header_bytes(1, 0x7800, 0, 0);
    assert_eq!(Message::deserialize(&bytes).err(), Some(DnsError::UnsupportedOpcode));
    let bytes = header_bytes(1, 0x0005, 0, 0);
    assert_eq!(Message::deserialize(&bytes).err(), Some(DnsError::UnsupportedRcode));
    assert_eq!(Message::deserialize(&[0, 1]).err(), Some(DnsError::UnexpectedEndOfBuffer));
}

#[test]
fn a_record_with_no_data_is_refused() {
    let packet = answer_packet(1, &[]);
    assert_eq!(Message::deserialize(&packet).err(), Some(DnsError::MalformedRdata));
    assert_eq!(
        Answer::deserialize(&packet, BitPos::at_byte(12)).err(),
        Some(DnsError::MalformedRdata)
    );
}

#[test]
fn cname_record_with_no_data_is_empty_name() {
    let packet = answer_packet(5, &[]);
    let m = Message::deserialize(&packet).unwrap();
    assert_eq!(m.answers.len(), 1);
    assert_eq!(m.answers[0].rdlength, 0);
    assert_eq!(m.answers[0].parse_record(&packet).unwrap(), "");
}

#[test]
fn a_record_reads_as_dotted_quad() {
    let packet = answer_packet(1, &[93, 184, 216, 34]);
    let m = Message::deserialize(&packet).unwrap();
    let a = &m.answers[0];
    assert_eq!(a.name, "example.com");
    assert_eq!(a.ty, Qtype::A);
    assert_eq!(a.class, Qclass::IN);
    assert_eq!(a.ttl, 3600);
    assert_eq!(a.rddata, vec![93, 184, 216, 34]);
    assert_eq!(a.parse_record(&packet).unwrap(), "93.184.216.34");
    let zeros = answer_packet(1, &[0, 7, 10, 255]);
    let m = Message::deserialize(&zeros).unwrap();
    assert_eq!(m.answers[0].parse_record(&zeros).unwrap(), "0.7.10.255");
}

#[test]
fn cname_record_follows_pointer_into_packet() {
    let packet = answer_packet(5, &[3, b'w', b'w', b'w', 0xc0, 12]);
    let m = Message::deserialize(&packet).unwrap();
    assert_eq!(m.answers[0].parse_record(&packet).unwrap(), "www.example.com");
}

#[test]
fn end_to_end_captured_query() {
    let mut packet = header_bytes(1337, 0x0100, 1, 0);
    push_name(&mut packet, &["www", "northeastern", "edu"]);
    push_u16(&mut packet, 1);
    push_u16(&mut packet, 1);
    let m = Message::deserialize(&packet).unwrap();
    assert_eq!(m.header.id, 1337);
    assert!(m.header.rd);
    assert_eq!(m.questions.len(), 1);
    assert_eq!(m.questions[0].qname, "www.northeastern.edu");
    assert_eq!(m.questions[0].qtype, Qtype::A);
    let built = Message::build(1337, "www.northeastern.edu", "A").unwrap();
    assert_eq!(built.serialize().unwrap(), packet);
}

#[test]
fn unsupported_record_type() {
    let packet = answer_packet(0x0010, &[1, 2, 3, 4]);
    assert_eq!(Message::deserialize(&packet).err(), Some(DnsError::UnsupportedType));
    let mut q = header_bytes(1, 0, 1, 0);
    push_name(&mut q, &["a"]);
    push_u16(&mut q, 0x0010);
    push_u16(&mut q, 1);
    assert_eq!(Message::deserialize(&q).err(), Some(DnsError::UnsupportedType));
}

#[test]
fn unsupported_class() {
    let mut q = header_bytes(1, 0, 1, 0);
    push_name(&mut q, &["a"]);
    push_u16(&mut q, 1);
    push_u16(&mut q, 3);
    assert_eq!(Message::deserialize(&q).err(), Some(DnsError::UnsupportedClass));
}

#[test]
fn missing_question_is_end_of_buffer() {
    let q = header_bytes(1, 0, 2, 0);
    assert_eq!(Message::deserialize(&q).err(), Some(DnsError::UnexpectedEndOfBuffer));
}

#[test]
fn trailing_bytes_are_count_mismatch() {
    let mut q = header_bytes(1, 0, 0, 0);
    q.push(0);
    assert_eq!(Message::deserialize(&q).err(), Some(DnsError::CountMismatch));
}

#[test]
fn type_names_and_builder_errors() {
    assert_eq!(Qtype::from_name("a"), Ok(Qtype::A));
    assert_eq!(Qtype::from_name("CName"), Ok(Qtype::CNAME));
    assert_eq!(Qtype::from_name("MX"), Err(DnsError::UnknownTypeName));
    assert_eq!(Message::build(1, "x.org", "AAAA").err(), Some(DnsError::UnknownTypeName));
    let long = format!("{}.com", "z".repeat(70));
    let m = Message::build(1, &long, "A").unwrap();
    assert_eq!(m.serialize(), Err(DnsError::LabelTooLong));
}

#[test]
fn messages_with_answers_are_not_encoded() {
    let packet = answer_packet(1, &[1, 2, 3, 4]);
    let m = Message::deserialize(&packet).unwrap();
    assert_eq!(m.serialize(), Err(DnsError::AnswerEncodingUnsupported));
}

#[test]
fn new_question_defaults() {
    let q = Question::new();
    assert_eq!(q.qname, "");
    assert_eq!(q.qtype, Qtype::A);
    assert_eq!(q.qclass, Qclass::IN);
    let m = Message::new();
    assert_eq!(m.header, Header::new());
    assert!(m.questions.is_empty());
}

#[test]
fn pointer_offset_is_low_fourteen_bits() {
    assert_eq!(get_deref_ptr(0xc00c), 12);
    assert_eq!(get_deref_ptr(0xffff), 0x3fff);
}

#[test]
fn pointer_past_packet_is_end_of_buffer() {
    let buf = [0xc0u8, 0x09];
    assert_eq!(parse_name(&buf, BitPos::at_byte(0)), Err(DnsError::UnexpectedEndOfBuffer));
}

#[test]
fn mismatched_counts_are_not_encoded() {
    let mut m = Message::build(9, "a.b", "A").unwrap();
    m.header.qdcount = 2;
    assert_eq!(m.serialize(), Err(DnsError::CountMismatch));
    let mut m = Message::new();
    m.questions.push(Question::new());
    assert_eq!(m.serialize(), Err(DnsError::CountMismatch));
}

#[test]
fn invalid_label_is_refused_before_buffer_end() {
    let buf = [1u8, 0xff];
    assert_eq!(parse_name(&buf, BitPos::at_byte(0)), Err(DnsError::MalformedText));
    let buf = [1u8, b'a', 1, 0xc3, 5];
    assert_eq!(parse_name(&buf, BitPos::at_byte(0)), Err(DnsError::MalformedText));
}

#[test]
fn multibyte_labels_decode() {
    let wire = name_to_vec("caf\u{e9}.example").unwrap();
    let (_, name) = parse_name(&wire, BitPos::at_byte(0)).unwrap();
    assert_eq!(name, "caf\u{e9}.example");
}
