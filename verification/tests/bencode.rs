use torrust::bencode::{self, Bencode, DecodeError, IntegerFault, StringFault};

fn expect_err(r: Result<Bencode, DecodeError>) -> DecodeError {
    match r {
        Err(e) => e,
        Ok(_) => panic!("expected an error"),
    }
}

fn beq(a: &Bencode, b: &Bencode) -> bool {
    match (a, b) {
        (Bencode::Integer(x), Bencode::Integer(y)) => x == y,
        (Bencode::String(x), Bencode::String(y)) => x == y,
        (Bencode::List(x), Bencode::List(y)) => {
            x.len() == y.len() && x.iter().zip(y.iter()).all(|(u, v)| beq(u, v))
        }
        (Bencode::Dictionary(x), Bencode::Dictionary(y)) => {
            x.len() == y.len()
                && x.iter()
                    .zip(y.iter())
                    .all(|(u, v)| u.0 == v.0 && beq(&u.1, &v.1))
        }
        _ => false,
    }
}

#[test]
fn test_decode_positive_integer() {
    let encoded = "i42e".to_string().into_bytes();
    let decoded = bencode::decode(encoded).unwrap();
    match decoded {
        Bencode::Integer(n) => assert_eq!(n, 42),
        _ => panic!("Decoded value is not an integer"),
    }
}

#[test]
fn test_decode_negative_integer() {
    let encoded = "i-42e".to_string().into_bytes();
    let decoded = bencode::decode(encoded).unwrap();
    match decoded {
        Bencode::Integer(n) => assert_eq!(n, -42),
        _ => panic!("Decoded value is not an integer"),
    }
}

#[test]
fn test_decode_string() {
    let encoded = "4:spam".to_string().into_bytes();
    let decoded = bencode::decode(encoded).unwrap();
    match decoded {
        Bencode::String(s) => assert_eq!(s, b"spam"),
        _ => panic!("Decoded value is not a string"),
    }
}

#[test]
fn test_decode_list() {
    let encoded = "l4:spami42ee".to_string().into_bytes();
    let decoded = bencode::decode(encoded).unwrap();
    match decoded {
        Bencode::List(l) => {
            assert_eq!(l.len(), 2);
            match &l[0] {
                Bencode::String(s) => assert_eq!(s, b"spam"),
                _ => panic!("First element is not a string"),
            }
            match &l[1] {
                Bencode::Integer(n) => assert_eq!(*n, 42),
                _ => panic!("Second element is not an integer"),
            }
        }
        _ => panic!("Decoded value is not a list"),
    }
}

#[test]
fn test_decode_dictionary() {
    let encoded = "d3:cow3:moo4:spam4:eggse".to_string().into_bytes();
    let decoded = bencode::decode(encoded).unwrap();
    match decoded {
        Bencode::Dictionary(d) => {
            assert_eq!(d.len(), 2);
            assert_eq!(d[0].0, b"cow");
            assert!(beq(&d[0].1, &Bencode::String(b"moo".to_vec())));
            assert_eq!(d[1].0, b"spam");
            assert!(beq(&d[1].1, &Bencode::String(b"eggs".to_vec())));
        }
        _ => panic!("Decoded value is not a dictionary"),
    }
}

#[test]
fn test_encode_positive_integer() {
    let bencode = Bencode::Integer(42);
    let encoded = bencode::encode(&bencode);
    assert_eq!(encoded, b"i42e");
}

#[test]
fn test_encode_negative_integer() {
    let bencode = Bencode::Integer(-42);
    let encoded = bencode::encode(&bencode);
    assert_eq!(encoded, b"i-42e");
}

#[test]
fn test_encode_string() {
    let bencode = Bencode::String(b"spam".to_vec());
    let encoded = bencode::encode(&bencode);
    assert_eq!(encoded, b"4:spam");
}

#[test]
fn test_encode_list() {
    let bencode = Bencode::List(vec![
        Bencode::String(b"spam".to_vec()),
        Bencode::Integer(42),
    ]);
    let encoded = bencode::encode(&bencode);
    assert_eq!(encoded, b"l4:spami42ee");
}

#[test]
fn test_encode_dictionary() {
    let bencode = Bencode::Dictionary(vec![
        (b"spam".to_vec(), Bencode::String(b"eggs".to_vec())),
        (b"cow".to_vec(), Bencode::String(b"moo".to_vec())),
    ]);
    let encoded = bencode::encode(&bencode);
    assert_eq!(encoded, b"d3:cow3:moo4:spam4:eggse");
}

#[test]
fn test_decode_zero_integer() {
    let encoded = "i0e".to_string().into_bytes();
    let decoded = bencode::decode(encoded).unwrap();
    assert!(beq(&decoded, &Bencode::Integer(0)));
}

#[test]
fn test_decode_empty_string() {
    let encoded = "0:".to_string().into_bytes();
    let decoded = bencode::decode(encoded).unwrap();
    assert!(beq(&decoded, &Bencode::String(b"".to_vec())));
}

#[test]
fn test_decode_empty_list() {
    let encoded = "le".to_string().into_bytes();
    let decoded = bencode::decode(encoded).unwrap();
    assert!(beq(&decoded, &Bencode::List(vec![])));
}

#[test]
fn test_decode_empty_dictionary() {
    let encoded = "de".to_string().into_bytes();
    let decoded = bencode::decode(encoded).unwrap();
    assert!(beq(&decoded, &Bencode::Dictionary(vec![])));
}

#[test]
fn test_encode_nested_list() {
    let bencode = Bencode::List(vec![
        Bencode::String(b"spam".to_vec()),
        Bencode::List(vec![
            Bencode::String(b"a".to_vec()),
            Bencode::String(b"b".to_vec()),
        ]),
    ]);
    let encoded = bencode::encode(&bencode);
    assert_eq!(encoded, b"l4:spaml1:a1:bee");
}

#[test]
fn test_decode_invalid_integer_leading_zero() {
    let encoded = "i03e".to_string().into_bytes();
    assert!(bencode::decode(encoded).is_err());
}

#[test]
fn test_decode_invalid_integer_negative_zero() {
    let encoded = "i-0e".to_string().into_bytes();
    assert!(bencode::decode(encoded).is_err());
}

#[test]
fn test_decode_invalid_string_length() {
    let encoded = "10:abc".to_string().into_bytes();
    assert!(bencode::decode(encoded).is_err());
}

#[test]
fn test_decode_unsorted_dictionary_keys() {
    let encoded = "d4:spami42e3:cow3:mooe".to_string().into_bytes();
    assert!(bencode::decode(encoded).is_err());
}

#[test]
fn test_extra_data() {
    let encoded = "i42e_extra_data".to_string().into_bytes();
    assert!(bencode::decode(encoded).is_err());
}

#[test]
fn test_round_trip_complex() {
    let bencode = Bencode::Dictionary(vec![
        (b"publisher".to_vec(), Bencode::String(b"bob".to_vec())),
        (
            b"publisher-webpage".to_vec(),
            Bencode::String(b"www.example.com".to_vec()),
        ),
    ]);
    let encoded = bencode::encode(&bencode);
    let decoded = bencode::decode(encoded).unwrap();
    assert!(beq(&bencode, &decoded));
}

#[test]
fn test_error_variants() {
    assert_eq!(expect_err(bencode::decode(vec![])), DecodeError::EmptyInput);
    assert_eq!(expect_err(bencode::decode(b"i03e".to_vec())), DecodeError::MalformedInteger(IntegerFault::LeadingZero));
    assert_eq!(expect_err(bencode::decode(b"i-0e".to_vec())), DecodeError::MalformedInteger(IntegerFault::NegativeZero));
    assert_eq!(expect_err(bencode::decode(b"i12".to_vec())), DecodeError::MalformedInteger(IntegerFault::MissingTerminator));
    assert_eq!(expect_err(bencode::decode(b"iabce".to_vec())), DecodeError::MalformedInteger(IntegerFault::NonNumeric));
    assert_eq!(expect_err(bencode::decode(b"i9223372036854775808e".to_vec())), DecodeError::MalformedInteger(IntegerFault::OutOfRange));
    assert_eq!(expect_err(bencode::decode(b"10:abc".to_vec())), DecodeError::MalformedString(StringFault::LengthExceedsBuffer));
    assert_eq!(expect_err(bencode::decode(b"12".to_vec())), DecodeError::MalformedString(StringFault::MissingColon));
    assert_eq!(expect_err(bencode::decode(b"04:spam".to_vec())), DecodeError::MalformedString(StringFault::LeadingZeroLength));
    assert_eq!(expect_err(bencode::decode(b"x".to_vec())), DecodeError::UnknownTag);
    assert_eq!(expect_err(bencode::decode(b"l4:spam".to_vec())), DecodeError::MalformedContainer);
    assert_eq!(expect_err(bencode::decode(b"di0ei1ee".to_vec())), DecodeError::InvalidDictionaryKey);
    assert_eq!(expect_err(bencode::decode(b"d1:ae".to_vec())), DecodeError::DictionaryOddElementCount);
    assert_eq!(expect_err(bencode::decode(b"d4:spami42e3:cow3:mooe".to_vec())), DecodeError::UnsortedDictionaryKeys);
    assert_eq!(expect_err(bencode::decode(b"i42e_extra_data".to_vec())), DecodeError::ExtraTrailingData);
}

#[test]
fn test_depth_limit() {
    let mut deep = Vec::new();
    for _ in 0..400 {
        deep.push(b'l');
    }
    for _ in 0..400 {
        deep.push(b'e');
    }
    assert_eq!(expect_err(bencode::decode(deep)), DecodeError::DepthLimitExceeded);
}

#[test]
fn test_integer_boundaries_round_trip() {
    for n in [i64::MIN, i64::MIN + 1, -1, 0, 1, i64::MAX - 1, i64::MAX] {
        let bytes = bencode::encode(&Bencode::Integer(n));
        match bencode::decode(bytes).unwrap() {
            Bencode::Integer(m) => assert_eq!(m, n),
            _ => panic!("round trip changed the variant"),
        }
    }
    assert_eq!(
        bencode::encode(&Bencode::Integer(i64::MIN)),
        b"i-9223372036854775808e"
    );
}

#[test]
fn test_canonical_stability() {
    for input in [
        &b"i42e"[..],
        b"4:spam",
        b"0:",
        b"le",
        b"de",
        b"l4:spami42ee",
        b"d3:cow3:moo4:spam4:eggse",
        b"d1:ad1:bl1:c1:dee1:ei-7ee",
    ] {
        let decoded = bencode::decode(input.to_vec()).unwrap();
        assert_eq!(bencode::encode(&decoded), input);
    }
}

#[test]
fn test_binary_string_passthrough() {
    let raw: Vec<u8> = (0u8..=255).collect();
    let mut encoded = b"256:".to_vec();
    encoded.extend_from_slice(&raw);
    match bencode::decode(encoded.clone()).unwrap() {
        Bencode::String(s) => assert_eq!(s, raw),
        _ => panic!("Decoded value is not a string"),
    }
    assert_eq!(bencode::encode(&Bencode::String(raw)), encoded);
}
