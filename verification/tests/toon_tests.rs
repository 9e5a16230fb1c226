use tgd_aap::data_engine::toon::{deserialize, serialize, ToonError};

fn lines(items: &[&str]) -> Vec<Vec<u8>> {
    items.iter().map(|s| s.as_bytes().to_vec()).collect()
}

#[test]
fn serialize_writes_header_and_lines() {
    let bytes = serialize(&lines(&["{\"a\":1}", "{}"])).unwrap();
    let mut expected = b"TOON".to_vec();
    expected.push(1);
    expected.extend_from_slice(&2u32.to_le_bytes());
    expected.extend_from_slice(b"{\"a\":1}\n{}\n");
    assert_eq!(bytes, expected);
}

#[test]
fn serialize_empty_is_header_only() {
    let bytes = serialize(&[]).unwrap();
    assert_eq!(bytes, vec![b'T', b'O', b'O', b'N', 1, 0, 0, 0, 0]);
    assert_eq!(deserialize(&bytes).unwrap(), Vec::<Vec<u8>>::new());
}

#[test]
fn serialize_rejects_line_feed_in_record() {
    assert_eq!(serialize(&lines(&["ok", "bro\nken"])), Err(ToonError::LineBreakInRecord));
}

#[test]
fn round_trip_gives_lines_back() {
    let input = lines(&["{\"id\":\"1\"}", "", "caf\u{e9} \u{6771}\u{4eac}"]);
    let bytes = serialize(&input).unwrap();
    assert_eq!(deserialize(&bytes).unwrap(), input);
}

#[test]
fn deserialize_rejects_each_malformed_buffer() {
    assert_eq!(deserialize(b""), Err(ToonError::TooShort));
    assert_eq!(deserialize(b"TOON\x01\x00\x00\x00"), Err(ToonError::TooShort));
    assert_eq!(deserialize(b"TOAD\x01\x00\x00\x00\x00"), Err(ToonError::BadMagic));
    assert_eq!(deserialize(b"TOON\x02\x00\x00\x00\x00"), Err(ToonError::UnsupportedVersion(2)));
    assert_eq!(deserialize(b"TOON\x01\x01\x00\x00\x00\xff\n"), Err(ToonError::InvalidUtf8));
    assert_eq!(
        deserialize(b"TOON\x01\x03\x00\x00\x00a\nb\n"),
        Err(ToonError::CountMismatch { declared: 3, found: 2 })
    );
    assert_eq!(
        deserialize(b"TOON\x01\x00\x01\x00\x00a\n"),
        Err(ToonError::CountMismatch { declared: 256, found: 1 })
    );
}

#[test]
fn deserialize_accepts_last_line_without_line_feed() {
    let out = deserialize(b"TOON\x01\x02\x00\x00\x00one\ntwo").unwrap();
    assert_eq!(out, vec![b"one".to_vec(), b"two".to_vec()]);
}

#[test]
fn error_messages_describe_the_error() {
    assert!(ToonError::TooShort.message().contains("too short"));
    assert!(ToonError::BadMagic.message().contains("magic"));
    assert!(ToonError::UnsupportedVersion(9).message().contains("version"));
    assert!(ToonError::InvalidUtf8.message().contains("UTF-8"));
}
