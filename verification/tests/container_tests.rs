use silk_session::container::{append_packet, parse_header, ContainerReader};
use silk_session::error::DecodeError;

fn plain_stream(packets: &[Vec<u8>]) -> Vec<u8> {
    let mut out = b"!SILK_V3".to_vec();
    for p in packets {
        assert!(append_packet(&mut out, p));
    }
    out
}

#[test]
fn plain_magic_is_accepted() {
    assert_eq!(parse_header(&b"!SILK_V3".to_vec()), Ok(8));
    assert_eq!(parse_header(&b"!SILK_V3\x01\x00\xaa".to_vec()), Ok(8));
}

#[test]
fn marked_magic_is_accepted() {
    assert_eq!(parse_header(&b"\x02#!SILK_V3".to_vec()), Ok(10));
    assert_eq!(parse_header(&b"\x02#!SILK_V3\x00\x00".to_vec()), Ok(10));
}

#[test]
fn bad_magic_is_invalid_header() {
    assert_eq!(parse_header(&b"BADMAGIC".to_vec()), Err(DecodeError::InvalidHeader));
    assert!(matches!(
        ContainerReader::open(b"BADMAGIC\x01\x00\x07".to_vec()),
        Err(DecodeError::InvalidHeader)
    ));
}

#[test]
fn short_or_mixed_prefixes_are_invalid() {
    assert_eq!(parse_header(&Vec::new()), Err(DecodeError::InvalidHeader));
    assert_eq!(parse_header(&b"!SILK_V".to_vec()), Err(DecodeError::InvalidHeader));
    assert_eq!(parse_header(&b"#!SILK_V3".to_vec()), Err(DecodeError::InvalidHeader));
    assert_eq!(parse_header(&b"\x02!SILK_V3".to_vec()), Err(DecodeError::InvalidHeader));
    assert_eq!(parse_header(&b"\x02#!SILK_V".to_vec()), Err(DecodeError::InvalidHeader));
    assert_eq!(parse_header(&b"!SILK_V4".to_vec()), Err(DecodeError::InvalidHeader));
}

#[test]
fn open_stands_behind_the_header() {
    let r = ContainerReader::open(b"\x02#!SILK_V3\x00\x00".to_vec()).unwrap();
    assert_eq!(r.bytes_consumed(), 10);
    assert_eq!(r.total_bytes(), 12);
}

#[test]
fn append_packet_writes_little_endian_length() {
    let mut out = vec![9u8];
    assert!(append_packet(&mut out, &vec![7u8, 8, 9]));
    assert_eq!(out, vec![9u8, 3, 0, 7, 8, 9]);
    let mut long = Vec::new();
    assert!(append_packet(&mut long, &vec![1u8; 300]));
    assert_eq!(&long[..2], &[44u8, 1]);
    assert_eq!(long.len(), 302);
}

#[test]
fn append_packet_refuses_what_the_prefix_cannot_say() {
    let mut out = vec![1u8, 2];
    assert!(!append_packet(&mut out, &vec![0u8; 32768]));
    assert_eq!(out, vec![1u8, 2]);
    assert!(append_packet(&mut out, &vec![0u8; 32767]));
    assert_eq!(&out[2..4], &[0xffu8, 0x7f]);
}

#[test]
fn framing_round_trip() {
    let packets = vec![vec![1u8, 2, 3], Vec::new(), vec![0xffu8; 257], vec![5u8]];
    let mut r = ContainerReader::open(plain_stream(&packets)).unwrap();
    for p in &packets {
        assert_eq!(r.next_packet().as_ref(), Some(p));
    }
    assert_eq!(r.next_packet(), None);
    assert_eq!(r.bytes_consumed(), r.total_bytes());
}

#[test]
fn negative_length_ends_the_stream() {
    let mut data = plain_stream(&[vec![4u8, 5]]);
    data.extend_from_slice(&[0xff, 0xff, 1, 2, 3]);
    let mut r = ContainerReader::open(data).unwrap();
    assert_eq!(r.next_packet(), Some(vec![4u8, 5]));
    assert_eq!(r.next_packet(), None);
    assert_eq!(r.bytes_consumed(), 12);
    assert_eq!(r.next_packet(), None);
}

#[test]
fn short_read_ends_the_stream() {
    let mut data = plain_stream(&[]);
    data.extend_from_slice(&[3, 0, 1, 2]);
    let mut r = ContainerReader::open(data).unwrap();
    assert_eq!(r.next_packet(), None);
    assert_eq!(r.bytes_consumed(), 8);

    let mut one = plain_stream(&[]);
    one.push(0);
    let mut r = ContainerReader::open(one).unwrap();
    assert_eq!(r.next_packet(), None);
}
