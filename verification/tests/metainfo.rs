use torrust::metainfo::{self, FieldName, MetaInfoError};

fn sample_torrent() -> Vec<u8> {
    let mut bytes = Vec::new();
    bytes.extend_from_slice(b"d8:announce35:http://tracker.example.com/announce");
    bytes.extend_from_slice(b"4:infod4:name10:sample.txt12:piece lengthi32768e6:pieces20:");
    bytes.extend_from_slice(&[7u8; 20]);
    bytes.extend_from_slice(b"ee");
    bytes
}

#[test]
fn test_decode_metainfo_sample_torrent() {
    let file_bytes = sample_torrent();

    let result = metainfo::decode_metainfo(&file_bytes);

    assert!(
        result.is_ok(),
        "decode_metainfo should not fail on valid torrent file"
    );

    let metainfo = result.unwrap();

    assert!(
        !metainfo.announce.is_empty(),
        "Announce URL should not be empty"
    );
    assert!(
        !metainfo.info.name.is_empty(),
        "Info name should not be empty"
    );
    assert!(
        metainfo.info.piece_length > 0,
        "Piece length should be positive"
    );
    assert!(
        !metainfo.info.pieces.is_empty(),
        "Pieces should not be empty"
    );
}

#[test]
fn test_decode_metainfo_with_invalid_data() {
    let invalid_data = "this is not a valid torrent file";
    let result = metainfo::decode_metainfo(invalid_data.as_bytes());

    assert!(
        result.is_err(),
        "decode_metainfo should fail on invalid data"
    );
}

#[test]
fn test_decode_metainfo_with_empty_data() {
    let empty_data = "";
    let result = metainfo::decode_metainfo(empty_data.as_bytes());

    assert!(result.is_err(), "decode_metainfo should fail on empty data");
}

#[test]
fn test_decode_metainfo_fields() {
    let m = metainfo::decode_metainfo(&sample_torrent()).unwrap();
    assert_eq!(m.announce, "http://tracker.example.com/announce");
    assert_eq!(m.info.name, "sample.txt");
    assert_eq!(m.info.piece_length, 32768);
    assert_eq!(m.info.pieces.len(), 1);
    assert_eq!(m.info.pieces[0], vec![7u8; 20]);
}

#[test]
fn test_decode_metainfo_error_variants() {
    assert_eq!(
        metainfo::decode_metainfo(b"i42e").unwrap_err(),
        MetaInfoError::InvalidMetaInfoFormat
    );
    assert_eq!(
        metainfo::decode_metainfo(b"de").unwrap_err(),
        MetaInfoError::MissingOrInvalidField(FieldName::Announce)
    );
    assert_eq!(
        metainfo::decode_metainfo(b"d8:announce3:urle").unwrap_err(),
        MetaInfoError::MissingOrInvalidField(FieldName::Info)
    );
    assert_eq!(
        metainfo::decode_metainfo(b"d8:announce3:url4:infodee").unwrap_err(),
        MetaInfoError::MissingOrInvalidField(FieldName::Name)
    );
    assert_eq!(
        metainfo::decode_metainfo(b"d8:announce3:url4:infod4:name1:x12:piece lengthi-1e6:pieces0:ee")
            .unwrap_err(),
        MetaInfoError::IntegerRangeError
    );
    assert_eq!(
        metainfo::decode_metainfo(b"d8:announce3:url4:infod4:name1:x12:piece lengthi1e6:pieces3:abcee")
            .unwrap_err(),
        MetaInfoError::PiecesLengthNotMultipleOf20
    );
    let mut bad_utf8 = b"d8:announce1:".to_vec();
    bad_utf8.push(0xFF);
    bad_utf8.extend_from_slice(b"e");
    assert_eq!(
        metainfo::decode_metainfo(&bad_utf8).unwrap_err(),
        MetaInfoError::TextValidationFailed(FieldName::Announce)
    );
    match metainfo::decode_metainfo(b"") {
        Err(MetaInfoError::Bencode(_)) => {}
        _ => panic!("empty input should surface the decoder's error"),
    }
}
