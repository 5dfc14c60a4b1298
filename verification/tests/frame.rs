use single_object::error::{Error, ErrorKind};
use single_object::fingerprint::{fingerprint, Fingerprint};
use single_object::frame::{decode, encode, single_object_marker, HEADER_LEN};
use single_object::schema::Schema;

fn truncated(at: usize) -> Error {
    Error { kind: ErrorKind::TruncatedFrame, offset: at, path: vec![] }
}

#[test]
fn marker_is_c3_01() {
    assert_eq!(single_object_marker(), [0xC3, 0x01]);
    assert_eq!(HEADER_LEN, 10);
}

#[test]
fn encode_lays_out_marker_fingerprint_payload() {
    let fp = Fingerprint(0x0807_0605_0403_0201);
    let frame = encode(single_object_marker(), fp, &[0xAA, 0xBB]);
    assert_eq!(frame, vec![0xC3, 0x01, 1, 2, 3, 4, 5, 6, 7, 8, 0xAA, 0xBB]);
}

#[test]
fn decode_gives_back_fingerprint_and_payload() {
    let frame = vec![0xC3, 0x01, 1, 2, 3, 4, 5, 6, 7, 8, 0xAA, 0xBB];
    let (fp, payload) = decode(&frame).unwrap();
    assert_eq!(fp, Fingerprint(0x0807_0605_0403_0201));
    assert_eq!(payload, &[0xAA, 0xBB][..]);
}

#[test]
fn decode_of_short_input_is_truncated() {
    let full = [0xC3u8, 0x01, 1, 2, 3, 4, 5, 6, 7, 8];
    for len in 0..10 {
        assert_eq!(decode(&full[..len]), Err(truncated(len)));
    }
    let garbage = [0xFFu8; 9];
    for len in 0..10 {
        assert_eq!(decode(&garbage[..len]), Err(truncated(len)));
    }
}

#[test]
fn decode_of_ten_bytes_has_empty_payload() {
    let full = [0xC3u8, 0x01, 1, 2, 3, 4, 5, 6, 7, 8];
    let (fp, payload) = decode(&full).unwrap();
    assert_eq!(fp.to_bytes(), vec![1, 2, 3, 4, 5, 6, 7, 8]);
    assert!(payload.is_empty());
}

#[test]
fn decode_of_eleven_bytes_has_one_payload_byte() {
    let full = [0xC3u8, 0x01, 1, 2, 3, 4, 5, 6, 7, 8, 9];
    let (_, payload) = decode(&full).unwrap();
    assert_eq!(payload, &[9u8][..]);
}

#[test]
fn decode_rejects_other_markers() {
    let unknown = Error { kind: ErrorKind::UnknownMarker, offset: 0, path: vec![] };
    assert_eq!(decode(&[0xC3, 0x02, 1, 2, 3, 4, 5, 6, 7, 8]), Err(unknown.clone()));
    assert_eq!(decode(&[0x00, 0x01, 1, 2, 3, 4, 5, 6, 7, 8, 9, 9]), Err(unknown));
}

#[test]
fn fingerprint_of_null_is_the_published_one() {
    let fp = fingerprint(&Schema::Null).unwrap();
    assert_eq!(fp, Fingerprint(0x63dd_24e7_cc25_8f8a));
}

#[test]
fn fingerprint_matches_the_avro_library() {
    let ours = fingerprint(&Schema::Array(Box::new(Schema::Long))).unwrap();
    let parsed = apache_avro::Schema::parse_str(r#"{"type": "array", "items": "long"}"#).unwrap();
    let theirs = parsed.fingerprint::<apache_avro::rabin::Rabin>();
    assert_eq!(ours.to_bytes(), theirs.bytes);
}
