use jitos::canonical::{decode, encode, CanonicalError, Value};
use jitos::hash::hash_canonical;

fn text(s: &str) -> Value {
    Value::Text(s.to_string())
}

fn integer(n: i128) -> Value {
    Value::Integer(n)
}

fn map(entries: Vec<(Value, Value)>) -> Value {
    Value::Mapping(entries)
}

fn float(f: f64) -> Value {
    Value::Float(f.to_bits())
}

#[test]
fn ec01_encode_decode_roundtrip() {
    let bytes = encode(&integer(42)).unwrap();
    let decoded = decode(&bytes).unwrap();
    assert_eq!(decoded, integer(42));
}

#[test]
fn ec02_minimal_int_widths() {
    assert_eq!(encode(&integer(23)).unwrap()[0], 0x17);
    assert_eq!(encode(&integer(24)).unwrap(), vec![0x18, 0x18]);
    assert_eq!(encode(&integer(255)).unwrap(), vec![0x18, 0xff]);
    assert_eq!(encode(&integer(256)).unwrap(), vec![0x19, 0x01, 0x00]);
}

#[test]
fn ec03_float64_always_used() {
    let one = encode(&float(1.0)).unwrap();
    assert_eq!(one[0], 0x01);
    let half = encode(&float(0.5)).unwrap();
    assert_eq!(half[0], 0xfb);
    assert_eq!(half.len(), 9);
}

#[test]
fn ec04_canonical_nan() {
    let nan_bytes = encode(&float(f64::NAN)).unwrap();
    assert_eq!(nan_bytes.len(), 9);
    assert_eq!(nan_bytes[0], 0xfb);
    let expected_nan: [u8; 8] = 0x7FF8_0000_0000_0000u64.to_be_bytes();
    assert_eq!(&nan_bytes[1..9], &expected_nan);
}

#[test]
fn ec05_zero_normalization() {
    let pos_zero = encode(&float(0.0)).unwrap();
    let neg_zero = encode(&float(-0.0)).unwrap();
    assert_eq!(pos_zero, neg_zero);
}

#[test]
fn dc01_reject_indefinite() {
    let bytes = vec![0x9f, 0x01, 0x02, 0xff];
    assert!(matches!(decode(&bytes), Err(CanonicalError::Indefinite)));
}

#[test]
fn dc02_reject_non_canonical_int() {
    let bytes = vec![0x19, 0x00, 0x01];
    assert!(matches!(decode(&bytes), Err(CanonicalError::NonCanonicalInt)));
}

#[test]
fn dc03_reject_tag() {
    let bytes = vec![0xc0, 0x00];
    assert!(matches!(decode(&bytes), Err(CanonicalError::Tag)));
}

#[test]
fn dc04_reject_duplicate_keys() {
    let bytes = vec![0xa2, 0x61, 0x61, 0x01, 0x61, 0x61, 0x02];
    assert!(matches!(decode(&bytes), Err(CanonicalError::DuplicateKey)));
}

#[test]
fn dc05_reject_wrong_order() {
    let bytes = vec![0xa2, 0x61, 0x7a, 0x01, 0x61, 0x61, 0x01];
    assert!(matches!(decode(&bytes), Err(CanonicalError::MapKeyOrder)));
}

#[test]
fn dc06_reject_float16() {
    let bytes = vec![0xf9, 0x38, 0x00];
    assert!(matches!(decode(&bytes), Err(CanonicalError::NonCanonicalFloat)));
}

#[test]
fn dc07_reject_float32() {
    let bytes = vec![0xfa, 0x3f, 0x00, 0x00, 0x00];
    assert!(matches!(decode(&bytes), Err(CanonicalError::NonCanonicalFloat)));
}

#[test]
fn dc08_reject_non_canonical_nan() {
    let bytes = vec![0xfb, 0x7f, 0xf0, 0x00, 0x00, 0x00, 0x00, 0x00, 0x01];
    assert!(matches!(decode(&bytes), Err(CanonicalError::NonCanonicalFloat)));
}

#[test]
fn dc09_reject_float64_encoding_of_integral() {
    let float_one = vec![0xfb, 0x3f, 0xf0, 0x00, 0x00, 0x00, 0x00, 0x00, 0x00];
    let res = decode(&float_one);
    assert!(matches!(res, Err(CanonicalError::FloatShouldBeInt)), "Expected FloatShouldBeInt, got: {:?}", res);
}

#[test]
fn dc10_reject_truncated_float64() {
    let truncated = vec![0xfb];
    let res = decode(&truncated);
    assert!(matches!(res, Err(CanonicalError::Incomplete)), "Expected Incomplete, got: {:?}", res);
}

#[test]
fn truncated_float_payload_with_some_bytes_is_incomplete() {
    let truncated = vec![0xfb, 0x3f, 0xf0, 0x00];
    assert!(matches!(decode(&truncated), Err(CanonicalError::Incomplete)));
}

#[test]
fn test_empty_map_canonical() {
    let bytes = encode(&map(vec![])).unwrap();
    assert_eq!(bytes, vec![0xA0]);
    assert_eq!(decode(&bytes).unwrap(), map(vec![]));
}

#[test]
fn test_empty_array_canonical() {
    let bytes = encode(&Value::Array(vec![])).unwrap();
    assert_eq!(bytes, vec![0x80]);
    assert_eq!(decode(&bytes).unwrap(), Value::Array(vec![]));
}

#[test]
fn test_map_key_ordering() {
    let m = map(vec![(text("zebra"), integer(1)), (text("apple"), integer(2))]);
    let bytes = encode(&m).unwrap();
    for _ in 0..100 {
        let decoded = decode(&bytes).unwrap();
        let re_encoded = encode(&decoded).unwrap();
        assert_eq!(re_encoded, bytes, "Re-encoding must produce identical bytes");
    }
}

#[test]
fn test_map_key_ordering_with_insertion_order() {
    let map1 = map(vec![(text("zebra"), integer(1)), (text("apple"), integer(2)), (text("mango"), integer(3))]);
    let map2 = map(vec![(text("apple"), integer(2)), (text("mango"), integer(3)), (text("zebra"), integer(1))]);
    let bytes1 = encode(&map1).unwrap();
    let bytes2 = encode(&map2).unwrap();
    assert_eq!(bytes1, bytes2, "Insertion order must not affect encoding");
}

#[test]
fn map_key_reorder_is_canonical() {
    let forward = map(vec![(text("zebra"), integer(1)), (text("apple"), integer(2))]);
    let reverse = map(vec![(text("apple"), integer(2)), (text("zebra"), integer(1))]);
    let bytes = encode(&forward).unwrap();
    assert_eq!(bytes, encode(&reverse).unwrap());
    assert_eq!(bytes, vec![0xa2, 0x65, b'a', b'p', b'p', b'l', b'e', 0x02, 0x65, b'z', b'e', b'b', b'r', b'a', 0x01]);
}

#[test]
fn canonical_hash_is_stable() {
    let a = map(vec![(text("a"), integer(1))]);
    let b = map(vec![(text("b"), integer(2))]);
    let a_bytes = encode(&a).unwrap();
    let b_bytes = encode(&b).unwrap();
    assert_eq!(a_bytes, encode(&a).unwrap());
    assert_eq!(b_bytes, encode(&b).unwrap());
    assert_eq!(a_bytes, vec![0xa1, 0x61, b'a', 0x01]);
    let ha = hash_canonical(&a).unwrap();
    let hb = hash_canonical(&b).unwrap();
    assert_eq!(ha, hash_canonical(&a).unwrap());
    assert_eq!(hb, hash_canonical(&b).unwrap());
    assert_ne!(ha, hb);
    assert_eq!(ha.0, *blake3::hash(&a_bytes).as_bytes());
}

#[test]
fn test_nan_canonicalization() {
    for val in [f64::NAN, f64::INFINITY, f64::NEG_INFINITY, 0.0, -0.0] {
        let bytes1 = encode(&float(val)).unwrap();
        let bytes2 = encode(&float(val)).unwrap();
        assert_eq!(bytes1, bytes2, "Same float should encode identically");
    }
    let nan_bytes = encode(&float(f64::NAN)).unwrap();
    assert_eq!(nan_bytes.len(), 9);
    let expected_nan: [u8; 8] = 0x7FF8_0000_0000_0000u64.to_be_bytes();
    assert_eq!(&nan_bytes[1..9], &expected_nan, "NaN must use canonical bit pattern");
    match decode(&nan_bytes).unwrap() {
        Value::Float(bits) => assert!(f64::from_bits(bits).is_nan(), "Decoded value should be NaN"),
        other => panic!("expected a float, got {:?}", other),
    }
    let pos_zero_bytes = encode(&float(0.0)).unwrap();
    let neg_zero_bytes = encode(&float(-0.0)).unwrap();
    assert_eq!(pos_zero_bytes, neg_zero_bytes, "±0 must normalize to +0");
}

#[test]
fn subnormal_flushes_to_zero() {
    let tiny = f64::from_bits(1);
    assert_eq!(encode(&float(tiny)).unwrap(), vec![0x00]);
}

#[test]
fn test_infinity_preservation() {
    let pos_bytes = encode(&float(f64::INFINITY)).unwrap();
    let neg_bytes = encode(&float(f64::NEG_INFINITY)).unwrap();
    assert_ne!(pos_bytes, neg_bytes, "±∞ must be distinct");
    match decode(&pos_bytes).unwrap() {
        Value::Float(bits) => {
            let f = f64::from_bits(bits);
            assert!(f.is_infinite() && f.is_sign_positive());
        },
        other => panic!("expected a float, got {:?}", other),
    }
    match decode(&neg_bytes).unwrap() {
        Value::Float(bits) => {
            let f = f64::from_bits(bits);
            assert!(f.is_infinite() && f.is_sign_negative());
        },
        other => panic!("expected a float, got {:?}", other),
    }
}

#[test]
fn test_reject_duplicate_keys() {
    let bad_cbor = vec![0xA2, 0x61, 0x61, 0x01, 0x61, 0x61, 0x02];
    match decode(&bad_cbor) {
        Err(CanonicalError::DuplicateKey) => {},
        Err(e) => panic!("Expected DuplicateKey error, got: {:?}", e),
        Ok(_) => panic!("Should have rejected duplicate keys"),
    }
}

#[test]
fn encoder_rejects_duplicate_keys() {
    let m = map(vec![(text("a"), integer(1)), (text("a"), integer(2))]);
    assert!(matches!(encode(&m), Err(CanonicalError::DuplicateKey)));
}

#[test]
fn test_simple_types_roundtrip() {
    for v in [integer(42), integer(1000), integer(-42), float(3.14), text("hello world"), Value::Bool(true)] {
        let bytes = encode(&v).unwrap();
        assert_eq!(decode(&bytes).unwrap(), v);
    }
}

#[test]
fn test_nested_structures() {
    let inner = map(vec![(text("x"), integer(42)), (text("y"), text("test"))]);
    let value = map(vec![(text("inner"), inner), (text("values"), Value::Array(vec![integer(1), integer(2), integer(3)]))]);
    let bytes = encode(&value).unwrap();
    let decoded = decode(&bytes).unwrap();
    let re_encoded = encode(&decoded).unwrap();
    assert_eq!(re_encoded, bytes);
}

#[test]
fn test_large_integers() {
    for val in [0u64, u64::MAX, 0, 1, 255, 256, 65535, 65536] {
        let bytes = encode(&integer(val as i128)).unwrap();
        let decoded = decode(&bytes).unwrap();
        assert_eq!(decoded, integer(val as i128));
        assert_eq!(encode(&decoded).unwrap(), bytes);
    }
}

#[test]
fn integers_outside_range_are_refused() {
    assert!(matches!(encode(&integer(1i128 << 64)), Err(CanonicalError::Decode(_))));
    assert_eq!(encode(&integer(-(1i128 << 64))).unwrap(), vec![0x3b, 0xff, 0xff, 0xff, 0xff, 0xff, 0xff, 0xff, 0xff]);
}

#[test]
fn test_byte_strings() {
    let byte_data = vec![0u8, 1, 2, 255, 128, 64];
    let bytes = encode(&Value::Bytes(byte_data.clone())).unwrap();
    assert_eq!(bytes[0], 0x46);
    assert_eq!(decode(&bytes).unwrap(), Value::Bytes(byte_data));
}

#[test]
fn test_encoding_determinism() {
    let value = map(vec![
        (text("field1"), text("deterministic")),
        (text("field2"), integer(123456789)),
        (text("field3"), float(3.141592653589793)),
        (text("field4"), Value::Bytes(vec![1, 2, 3, 4, 5])),
    ]);
    let first = encode(&value).unwrap();
    for _ in 0..10 {
        assert_eq!(encode(&value).unwrap(), first, "Encoding must be deterministic");
    }
}

#[test]
fn trailing_bytes_are_rejected() {
    assert!(matches!(decode(&[0x01, 0x02]), Err(CanonicalError::Trailing)));
}

#[test]
fn non_minimal_length_is_rejected() {
    assert!(matches!(decode(&[0x58, 0x01, 0xaa]), Err(CanonicalError::NonCanonicalInt)));
}

#[test]
fn empty_input_is_incomplete() {
    assert!(matches!(decode(&[]), Err(CanonicalError::Incomplete)));
}

#[test]
fn invalid_utf8_text_is_rejected() {
    assert!(matches!(decode(&[0x61, 0xff]), Err(CanonicalError::Decode(_))));
}

#[test]
fn negative_integer_encoding() {
    assert_eq!(encode(&integer(-1)).unwrap(), vec![0x20]);
    assert_eq!(encode(&integer(-500)).unwrap(), vec![0x39, 0x01, 0xf3]);
    assert_eq!(decode(&[0x39, 0x01, 0xf3]).unwrap(), integer(-500));
}

#[test]
fn hash_hex_text() {
    let h = jitos::hash::Hash([0xab; 32]);
    assert_eq!(h.to_hex(), "ab".repeat(32));
}
