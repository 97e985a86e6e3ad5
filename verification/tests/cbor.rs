use wakala::cbor::{as_u64, as_u8, decode, encode, CborError, Fields, Value};

fn sample() -> Value {
    Value::IntMap(vec![
        (1, Value::U64(7)),
        (2, Value::Array(vec![Value::Bool(true), Value::Bytes(vec![1, 2]), Value::IntMap(vec![])])),
        (300, Value::Text("text".to_string())),
    ])
}

#[test]
fn values_are_read_back_as_they_were_written() {
    let octets = encode(&sample());
    assert_eq!(octets[..3], [0xa3, 0x01, 0x07]);
    let back = decode(&octets).unwrap();
    assert_eq!(back, sample());
    assert_eq!(encode(&back), octets);
    let words = Value::TextMap(vec![("a".to_string(), Value::U64(1))]);
    assert_eq!(decode(&encode(&words)).unwrap(), words);
}

#[test]
fn what_is_not_canonical_is_refused() {
    assert_eq!(decode(&[0x18, 0x01]), Err(CborError::NonShortestForm));
    assert_eq!(decode(&[0x9f, 0xff]), Err(CborError::IndefiniteLength));
    assert_eq!(decode(&[0xa2, 0x02, 0x00, 0x01, 0x00]), Err(CborError::MapKeyOrder));
    assert_eq!(decode(&[0xa2, 0x01, 0x00, 0x01, 0x00]), Err(CborError::DuplicateKey(1)));
    assert_eq!(decode(&[0x01, 0x01]), Err(CborError::TrailingData));
    assert_eq!(decode(&[0xf9, 0x00, 0x00]), Err(CborError::FloatPresent));
    assert_eq!(decode(&[0xf6]), Err(CborError::NullPresent));
    assert_eq!(decode(&[0xf7]), Err(CborError::TagOrUndefined));
    assert!(decode(&[]).is_err());
}

#[test]
fn an_object_is_taken_apart_key_by_key() {
    let mut f = Fields::from_value(sample()).unwrap();
    assert!(f.has(1) && !f.has(4));
    assert_eq!(f.req(4), Err(CborError::MissingKey(4)));
    assert_eq!(f.req_u64(1), Ok(7));
    assert_eq!(f.take(1), None);
    assert_eq!(f.deny_unknown(), Err(CborError::UnknownKey(2)));
    assert_eq!(f.req_text(2), Err(CborError::TypeMismatch));
    assert_eq!(f.req_text(300), Ok("text".to_string()));
    assert_eq!(f.deny_unknown(), Ok(()));
    assert!(Fields::from_value(Value::U64(1)).is_err());
    assert_eq!(as_u8(Value::U64(256)), Err(CborError::IntRange));
    assert_eq!(as_u64(Value::Bool(true)), Err(CborError::TypeMismatch));
}
