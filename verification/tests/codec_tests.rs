use dns::codec::build_query;
use dns::codec::build_query_with_id;
use dns::types::{
    DnsError, DnsHeader, DnsPacket, DnsQuestion, DnsRecord, DnsRecordData, Ipv4Addr, CLASS_IN,
    TYPE_A, TYPE_NS,
};

fn push_u16(out: &mut Vec<u8>, x: u16) {
    out.push((x >> 8) as u8);
    out.push((x & 0xFF) as u8);
}

fn push_u32(out: &mut Vec<u8>, x: u32) {
    out.push((x >> 24) as u8);
    out.push((x >> 16) as u8);
    out.push((x >> 8) as u8);
    out.push(x as u8);
}

fn push_record(out: &mut Vec<u8>, name: &[u8], type_: u16, ttl: u32, data: &[u8]) {
    out.extend_from_slice(name);
    push_u16(out, type_);
    push_u16(out, CLASS_IN);
    push_u32(out, ttl);
    push_u16(out, data.len() as u16);
    out.extend_from_slice(data);
}

#[test]
fn header_round_trip() {
    let h = DnsHeader {
        id: 0xBEEF,
        flags: 0x0100,
        num_questions: 1,
        num_answers: 2,
        num_authorities: 3,
        num_additionals: 4,
    };
    let bytes = h.to_bytes();
    assert_eq!(bytes.len(), 12);
    assert_eq!(DnsHeader::parse(&bytes), Ok(h));
}

#[test]
fn header_truncated() {
    let short = vec![0u8; 11];
    assert_eq!(DnsHeader::parse(&short), Err(DnsError::Truncated));
}

#[test]
fn query_bytes_exact() {
    let q = build_query_with_id("google.com", TYPE_A, 0x1234);
    let mut expected: Vec<u8> = vec![0x12, 0x34, 0, 0, 0, 1, 0, 0, 0, 0, 0, 0];
    expected.extend_from_slice(&[6, b'g', b'o', b'o', b'g', b'l', b'e', 3, b'c', b'o', b'm', 0]);
    expected.extend_from_slice(&[0, 1, 0, 1]);
    assert_eq!(q, expected);
}

#[test]
fn round_trip_encode_query() {
    let bytes = build_query("google.com", TYPE_A);
    let packet = DnsPacket::parse(&bytes).unwrap();
    assert_eq!(packet.questions.len(), 1);
    assert_eq!(packet.questions[0].name, b"google.com".to_vec());
    assert_eq!(packet.questions[0].type_, TYPE_A);
    assert_eq!(packet.questions[0].class, CLASS_IN);
    assert_eq!(packet.answers.len(), 0);
    assert_eq!(packet.authorities.len(), 0);
    assert_eq!(packet.additionals.len(), 0);
}

#[test]
fn query_id_is_in_range() {
    for _ in 0..8 {
        let bytes = build_query("example.com", TYPE_A);
        let h = DnsHeader::parse(&bytes).unwrap();
        assert!(1 <= h.id && h.id < 65535);
    }
}

#[test]
fn question_parse_reads_fields() {
    let mut buf: Vec<u8> = vec![3, b'c', b'o', b'm', 0];
    push_u16(&mut buf, TYPE_NS);
    push_u16(&mut buf, CLASS_IN);
    let (consumed, q) = DnsQuestion::parse(&buf, 0).unwrap();
    assert_eq!(consumed, 9);
    assert_eq!(q.name, b"com".to_vec());
    assert_eq!(q.type_, TYPE_NS);
    assert_eq!(q.class, CLASS_IN);
}

#[test]
fn record_parse_a() {
    let mut buf: Vec<u8> = Vec::new();
    push_record(
        &mut buf,
        &[3, b'c', b'o', b'm', 0],
        TYPE_A,
        3600,
        &[93, 184, 216, 34],
    );
    let (consumed, rec) = DnsRecord::parse(&buf, 0).unwrap();
    assert_eq!(consumed, buf.len());
    assert_eq!(rec.name, b"com".to_vec());
    assert_eq!(rec.type_, TYPE_A);
    assert_eq!(rec.ttl, 3600);
    match rec.data {
        DnsRecordData::Ipv4Addr(ip) => assert_eq!(ip, Ipv4Addr::new(93, 184, 216, 34)),
        _ => panic!("expected an address payload"),
    }
}

#[test]
fn record_parse_a_bad_length() {
    let mut buf: Vec<u8> = Vec::new();
    push_record(&mut buf, &[3, b'c', b'o', b'm', 0], TYPE_A, 0, &[1, 2, 3]);
    assert!(matches!(
        DnsRecord::parse(&buf, 0),
        Err(DnsError::InconsistentRecordLength)
    ));
}

#[test]
fn record_parse_ns_compressed() {
    // offset 0 holds "ns.com\0"; the record follows, its NS payload is a
    // two-byte pointer back to offset 0
    let mut buf: Vec<u8> = vec![2, b'n', b's', 3, b'c', b'o', b'm', 0];
    let start = buf.len();
    push_record(&mut buf, &[3, b'o', b'r', b'g', 0], TYPE_NS, 60, &[0xC0, 0x00]);
    let (consumed, rec) = DnsRecord::parse(&buf, start).unwrap();
    assert_eq!(consumed, buf.len() - start);
    assert_eq!(rec.name, b"org".to_vec());
    match rec.data {
        DnsRecordData::Name(name) => assert_eq!(name, b"ns.com".to_vec()),
        _ => panic!("expected a name payload"),
    }
}

#[test]
fn record_parse_ns_length_mismatch() {
    // the declared data length says 3 bytes but the embedded name consumes 2
    let mut buf: Vec<u8> = vec![3, b'c', b'o', b'm', 0];
    let start = buf.len();
    buf.extend_from_slice(&[3, b'o', b'r', b'g', 0]);
    push_u16(&mut buf, TYPE_NS);
    push_u16(&mut buf, CLASS_IN);
    push_u32(&mut buf, 60);
    push_u16(&mut buf, 3);
    buf.extend_from_slice(&[0xC0, 0x00]);
    buf.push(0);
    assert!(matches!(
        DnsRecord::parse(&buf, start),
        Err(DnsError::InconsistentRecordLength)
    ));
}

#[test]
fn record_parse_opaque_type() {
    let payload = [b'h', b'i', b'!', 0, 7];
    let mut buf: Vec<u8> = Vec::new();
    push_record(&mut buf, &[3, b'c', b'o', b'm', 0], 16, 7, &payload);
    let (consumed, rec) = DnsRecord::parse(&buf, 0).unwrap();
    assert_eq!(consumed, buf.len());
    assert_eq!(rec.type_, 16);
    match rec.data {
        DnsRecordData::Data(data) => assert_eq!(data, payload.to_vec()),
        _ => panic!("expected an opaque payload"),
    }
}

#[test]
fn record_parse_truncated_fixed_fields() {
    let buf: Vec<u8> = vec![3, b'c', b'o', b'm', 0, 0, 1];
    assert!(matches!(DnsRecord::parse(&buf, 0), Err(DnsError::Truncated)));
}

#[test]
fn packet_counts_match_sections() {
    let h = DnsHeader {
        id: 7,
        flags: 0,
        num_questions: 1,
        num_answers: 1,
        num_authorities: 1,
        num_additionals: 2,
    };
    let mut buf = h.to_bytes();
    // question
    buf.extend_from_slice(&[3, b'c', b'o', b'm', 0]);
    push_u16(&mut buf, TYPE_A);
    push_u16(&mut buf, CLASS_IN);
    // answer
    push_record(&mut buf, &[3, b'c', b'o', b'm', 0], TYPE_A, 1, &[1, 2, 3, 4]);
    // authority: NS payload "ns" as a plain (uncompressed) name
    push_record(
        &mut buf,
        &[3, b'c', b'o', b'm', 0],
        TYPE_NS,
        1,
        &[2, b'n', b's', 0],
    );
    // additionals: one A record and one opaque record
    push_record(&mut buf, &[2, b'n', b's', 0], TYPE_A, 1, &[5, 6, 7, 8]);
    push_record(&mut buf, &[2, b'n', b's', 0], 16, 1, &[9]);
    let packet = DnsPacket::parse(&buf).unwrap();
    assert_eq!(packet.questions.len(), packet.header.num_questions as usize);
    assert_eq!(packet.answers.len(), packet.header.num_answers as usize);
    assert_eq!(
        packet.authorities.len(),
        packet.header.num_authorities as usize
    );
    assert_eq!(
        packet.additionals.len(),
        packet.header.num_additionals as usize
    );
    assert_eq!(packet.questions[0].name, b"com".to_vec());
    match &packet.additionals[0].data {
        DnsRecordData::Ipv4Addr(ip) => assert_eq!(*ip, Ipv4Addr::new(5, 6, 7, 8)),
        _ => panic!("expected an address payload"),
    }
}

#[test]
fn packet_missing_records_is_truncated() {
    let h = DnsHeader {
        id: 7,
        flags: 0,
        num_questions: 0,
        num_answers: 1,
        num_authorities: 0,
        num_additionals: 0,
    };
    let buf = h.to_bytes();
    assert!(matches!(DnsPacket::parse(&buf), Err(DnsError::Truncated)));
}

#[test]
fn error_descriptions_are_distinct() {
    let errors = [
        DnsError::Truncated,
        DnsError::InvalidPointer,
        DnsError::InconsistentRecordLength,
        DnsError::NoUsableResponse,
        DnsError::TransportFailure,
        DnsError::RecursionLimitExceeded,
    ];
    for (i, a) in errors.iter().enumerate() {
        for (j, b) in errors.iter().enumerate() {
            if i != j {
                assert_ne!(a.describe(), b.describe());
            }
        }
    }
}

#[test]
fn question_truncated_after_name() {
    let buf: Vec<u8> = vec![3, b'c', b'o', b'm', 0, 0];
    assert!(matches!(
        DnsQuestion::parse(&buf, 0),
        Err(DnsError::Truncated)
    ));
}
