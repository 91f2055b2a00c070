use dns::name::{decode_compressed_name, decode_name, encode_dns_name, is_valid_dns_name};
use dns::types::DnsError;

#[test]
fn encode_two_labels() {
    let bytes = encode_dns_name("google.com");
    assert_eq!(
        bytes,
        vec![6, b'g', b'o', b'o', b'g', b'l', b'e', 3, b'c', b'o', b'm', 0]
    );
}

#[test]
fn encode_single_label() {
    let bytes = encode_dns_name("com");
    assert_eq!(bytes, vec![3, b'c', b'o', b'm', 0]);
}

#[test]
fn decode_simple_name() {
    let buf = vec![6, b'g', b'o', b'o', b'g', b'l', b'e', 3, b'c', b'o', b'm', 0];
    let (consumed, name) = decode_name(&buf, 0).unwrap();
    assert_eq!(consumed, 12);
    assert_eq!(name, b"google.com".to_vec());
}

#[test]
fn decode_name_round_trips_encode() {
    let encoded = encode_dns_name("www.example.org");
    let (consumed, name) = decode_name(&encoded, 0).unwrap();
    assert_eq!(consumed, encoded.len());
    assert_eq!(name, b"www.example.org".to_vec());
}

#[test]
fn decode_compressed_suffix() {
    // "com\0" at offset 0; at offset 12 the label "example" followed by a
    // two-byte pointer back to offset 0.
    let mut buf = vec![3, b'c', b'o', b'm', 0];
    while buf.len() < 12 {
        buf.push(0);
    }
    buf.extend_from_slice(&[7, b'e', b'x', b'a', b'm', b'p', b'l', b'e', 0xC0, 0x00]);
    let (consumed, name) = decode_name(&buf, 12).unwrap();
    assert_eq!(name, b"example.com".to_vec());
    // the bytes at offset 12 up to and including the pointer, not the bytes
    // at the pointer target
    assert_eq!(consumed, 10);
}

#[test]
fn decode_pointer_cycle_fails() {
    // a pointer at offset 0 to offset 2, which points back to offset 0
    let buf = vec![0xC0, 0x02, 0xC0, 0x00];
    assert_eq!(decode_name(&buf, 0), Err(DnsError::InvalidPointer));
}

#[test]
fn decode_self_pointer_fails() {
    let buf = vec![0xC0, 0x00];
    assert_eq!(decode_name(&buf, 0), Err(DnsError::InvalidPointer));
}

#[test]
fn decode_pointer_out_of_bounds_fails() {
    let buf = vec![0xC0, 0xFF, 0];
    assert_eq!(decode_name(&buf, 0), Err(DnsError::InvalidPointer));
}

#[test]
fn decode_truncated_label_fails() {
    let buf = vec![5, b'a'];
    assert_eq!(decode_name(&buf, 0), Err(DnsError::Truncated));
}

#[test]
fn decode_truncated_pointer_fails() {
    let buf = vec![0xC0];
    assert_eq!(decode_name(&buf, 0), Err(DnsError::Truncated));
}

#[test]
fn decode_past_end_fails() {
    let buf = vec![0];
    assert_eq!(decode_name(&buf, 5), Err(DnsError::Truncated));
}

#[test]
fn decode_compressed_name_reads_target() {
    let buf = vec![3, b'c', b'o', b'm', 0, 0xC0, 0x00];
    let name = decode_compressed_name(&buf, 5).unwrap();
    assert_eq!(name, b"com".to_vec());
}

#[test]
fn valid_name_accepts_ordinary_names() {
    assert!(is_valid_dns_name(b"google.com"));
    assert!(is_valid_dns_name(b"a.b.c"));
}

#[test]
fn valid_name_rejects_long_label() {
    let long = vec![b'a'; 64];
    assert!(!is_valid_dns_name(&long));
    assert!(is_valid_dns_name(&vec![b'a'; 63]));
}

#[test]
fn decode_keeps_raw_label_bytes() {
    // a label may hold any bytes, a dot included; they are kept as they are
    let buf = vec![3, b'a', b'.', b'b', 2, b'c', b'd', 0];
    let (consumed, name) = decode_name(&buf, 0).unwrap();
    assert_eq!(consumed, 8);
    assert_eq!(name, b"a.b.cd".to_vec());
}
