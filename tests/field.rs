use dozer_cache::field::{field_test_cases, Date, DeserializationError, Field, FieldBorrow, FieldType};

fn same(a: &Field, b: &Field) -> bool {
    format!("{:?}", a) == format!("{:?}", b)
}

#[test]
fn data_encoding_len_must_agree_with_encode() {
    for field in field_test_cases() {
        let bytes = field.encode_data();
        assert_eq!(bytes.len(), field.data_encoding_len());
    }
}

#[test]
fn encoding_len_agrees_with_encode() {
    for field in field_test_cases() {
        assert_eq!(field.encode().len(), field.encoding_len());
        let mut expected = vec![field.encode()[0]];
        expected.extend(field.encode_data());
        assert_eq!(field.encode(), expected);
    }
}

#[test]
fn every_test_case_decodes_to_itself() {
    for field in field_test_cases() {
        let bytes = field.encode();
        let back = Field::decode(&bytes).unwrap();
        assert!(same(&field, &back), "{:?} came back as {:?}", field, back);
    }
}

#[test]
fn uint_is_tagged_and_big_endian() {
    assert_eq!(Field::UInt(42).encode(), vec![1, 0, 0, 0, 0, 0, 0, 0, 42]);
    assert_eq!(Field::UInt(0x0102030405060708).encode(), vec![1, 1, 2, 3, 4, 5, 6, 7, 8]);
}

#[test]
fn int_is_twos_complement_big_endian() {
    assert_eq!(Field::Int(-1).encode(), vec![0, 255, 255, 255, 255, 255, 255, 255, 255]);
    assert!(same(&Field::decode(&Field::Int(i64::MIN).encode()).unwrap(), &Field::Int(i64::MIN)));
}

#[test]
fn string_text_binary_and_null_layouts() {
    assert_eq!(Field::String("NYC".to_string()).encode(), vec![4, b'N', b'Y', b'C']);
    assert_eq!(Field::Text("é".to_string()).encode(), vec![5, 0xc3, 0xa9]);
    assert_eq!(Field::Binary(vec![9, 8]).encode(), vec![6, 9, 8]);
    assert_eq!(Field::Bson(vec![7]).encode(), vec![10, 7]);
    assert_eq!(Field::Null.encode(), vec![11]);
    assert_eq!(Field::Boolean(true).encode(), vec![3, 1]);
    assert_eq!(Field::Boolean(false).encode(), vec![3, 0]);
}

#[test]
fn float_holds_bit_pattern() {
    let bits = 1.5f64.to_bits();
    let mut expected = vec![2u8];
    expected.extend_from_slice(&1.5f64.to_be_bytes());
    assert_eq!(Field::Float(bits).encode(), expected);
}

#[test]
fn date_is_ascii_text() {
    let d = Field::Date(Date { year: 2020, month: 2, day: 29 });
    assert_eq!(d.encode(), b"\x092020-02-29".to_vec());
    assert_eq!(d.encoding_len(), 11);
    assert!(same(&Field::decode(b"\x090987-12-31").unwrap(), &Field::Date(Date { year: 987, month: 12, day: 31 })));
}

#[test]
fn timestamp_is_big_endian_millis() {
    let t = Field::Timestamp(1_577_836_800_000);
    let mut expected = vec![8u8];
    expected.extend_from_slice(&1_577_836_800_000i64.to_be_bytes());
    assert_eq!(t.encode(), expected);
}

#[test]
fn encode_buf_fills_destination() {
    let f = Field::String("ab".to_string());
    let mut buf = vec![0u8; f.encoding_len()];
    f.encode_buf(&mut buf);
    assert_eq!(buf, vec![4, b'a', b'b']);
}

#[test]
fn decode_errors() {
    assert_eq!(Field::decode(&[]).unwrap_err(), DeserializationError::EmptyInput);
    assert_eq!(Field::decode(&[12]).unwrap_err(), DeserializationError::UnknownTypeTag(12));
    assert_eq!(Field::decode(&[200, 1]).unwrap_err(), DeserializationError::UnknownTypeTag(200));
    assert_eq!(Field::decode(&[1, 0, 0]).unwrap_err(), DeserializationError::BadDataLength);
    assert_eq!(Field::decode(&[3]).unwrap_err(), DeserializationError::BadDataLength);
    assert_eq!(Field::decode(&[7, 1, 2]).unwrap_err(), DeserializationError::BadDataLength);
    assert_eq!(Field::decode(&[11, 0]).unwrap_err(), DeserializationError::BadDataLength);
    assert_eq!(Field::decode(&[4, 0xff, 0xfe]).unwrap_err(), DeserializationError::BadUtf8);
    assert_eq!(Field::decode(&[5, 0xc3]).unwrap_err(), DeserializationError::BadUtf8);
    assert_eq!(Field::decode(b"\x092020-1-01").unwrap_err(), DeserializationError::BadDataLength);
    assert_eq!(Field::decode(b"\x092021-02-29").unwrap_err(), DeserializationError::BadDate);
    assert_eq!(Field::decode(b"\x092020/01/01").unwrap_err(), DeserializationError::BadDate);
}

#[test]
fn decode_borrow_shares_the_buffer() {
    let bytes = Field::String("hello".to_string()).encode();
    match Field::decode_borrow(&bytes).unwrap() {
        FieldBorrow::String(s) => assert_eq!(s, "hello"),
        other => panic!("unexpected {:?}", other),
    }
    let owned = Field::decode_borrow(&[6, 1, 2]).unwrap().to_owned();
    assert!(same(&owned, &Field::Binary(vec![1, 2])));
}

#[test]
fn borrow_and_get_type() {
    let f = Field::Text("x".to_string());
    assert_eq!(f.get_type(), FieldType::Text);
    assert!(same(&f.borrow().to_owned(), &f));
    assert_eq!(Field::Null.get_type(), FieldType::Null);
    assert_eq!(Field::Decimal(vec![0; 16]).get_type(), FieldType::Decimal);
}
