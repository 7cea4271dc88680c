use sqlite_from_scratch::cell::{CellPointer, Record, SerialType, TableLeafCell, Value, Varint};
use sqlite_from_scratch::error::ParseError;
use sqlite_from_scratch::page::BTreePageType;

#[test]
fn test_varint() {
    struct TestCase<'a> {
        bytes: &'a [u8],
        expected_value: u64,
        expected_size: usize,
    }

    let test_cases = [
        TestCase { bytes: &[0x01], expected_value: 1, expected_size: 1 },
        TestCase { bytes: &[0x80, 0x01], expected_value: 1, expected_size: 2 },
        TestCase { bytes: &[0xff, 0x7f], expected_value: 16383, expected_size: 2 },
        TestCase { bytes: &[0xff, 0xff, 0x7f], expected_value: 2097151, expected_size: 3 },
        TestCase { bytes: &[0xff, 0xff, 0xff, 0x7f], expected_value: 268435455, expected_size: 4 },
        TestCase {
            bytes: &[0x8f, 0xff, 0xff, 0xff, 0x7f],
            expected_value: u32::MAX as u64,
            expected_size: 5,
        },
        TestCase {
            bytes: &[0xff, 0xff, 0xff, 0xff, 0xff, 0xff, 0xff, 0xff, 0xff],
            expected_value: u64::MAX,
            expected_size: 9,
        },
    ];

    for test_case in &test_cases {
        let varint = Varint::from_bytes(test_case.bytes).unwrap();
        assert_eq!(
            test_case.expected_value, varint.value,
            "expected value: {}, got: {}",
            test_case.expected_value, varint.value
        );
        assert_eq!(
            test_case.expected_size, varint.size,
            "expected size: {}, got: {}",
            test_case.expected_size, varint.size
        );
    }
}

#[test]
fn test_serial_type() {
    let test_cases = [
        (0, SerialType::Null),
        (1, SerialType::Integer8),
        (2, SerialType::Integer16),
        (3, SerialType::Integer24),
        (4, SerialType::Integer32),
        (5, SerialType::Integer48),
        (6, SerialType::Integer64),
        (7, SerialType::Float64),
        (8, SerialType::Zero),
        (9, SerialType::One),
        (12, SerialType::Blob(0)),
        (14, SerialType::Blob(1)),
        (100, SerialType::Blob(44)),
        (13, SerialType::Text(0)),
        (15, SerialType::Text(1)),
        (101, SerialType::Text(44)),
    ];

    for (value, expected_serial_type) in &test_cases {
        let serial_type = SerialType::from_value(*value);
        assert_eq!(
            *expected_serial_type, serial_type,
            "expected: {:?}, got: {:?}",
            expected_serial_type, serial_type
        );
    }
}

#[test]
fn test_cell_pointer() {
    struct TestCase {
        bytes: [u8; 2],
        expected_offset: u16,
    }
    let test_cases = [
        TestCase { bytes: [0x00, 0x00], expected_offset: 0 },
        TestCase { bytes: [0x00, 0x01], expected_offset: 1 },
        TestCase { bytes: [0x01, 0x00], expected_offset: 256 },
        TestCase { bytes: [0xFF, 0xFF], expected_offset: 65535 },
    ];

    for test_case in &test_cases {
        let cell_pointer = CellPointer::from_bytes(&test_case.bytes).unwrap();
        assert_eq!(
            test_case.expected_offset, cell_pointer.offset,
            "expected: {}, got: {}",
            test_case.expected_offset, cell_pointer.offset
        );
    }
}

#[test]
fn test_parse_record_values() {
    struct TestCase {
        bytes: &'static [u8],
        serial_type: SerialType,
        expected: Value<'static>,
    }

    let test_cases = [
        TestCase { bytes: &[0x07], serial_type: SerialType::Integer8, expected: Value::Integer(7) },
        TestCase {
            bytes: &[0xff, 0xff, 0xff, 0xff, 0xff, 0xff, 0xff, 0xff],
            serial_type: SerialType::Integer64,
            expected: Value::Integer(-1),
        },
        TestCase {
            bytes: &[0xff, 0xff, 0xff, 0xff, 0xff, 0xff, 0xff, 0xff],
            serial_type: SerialType::Integer64,
            expected: Value::Integer(-1),
        },
        TestCase {
            bytes: b"hello",
            serial_type: SerialType::Text(5),
            expected: Value::Text("hello".into()),
        },
        TestCase {
            bytes: b"hello world universe cosmos galaxy solar system",
            serial_type: SerialType::Text(47),
            expected: Value::Text("hello world universe cosmos galaxy solar system".into()),
        },
    ];

    for test_case in &test_cases {
        let result = Record::parse_value(&test_case.serial_type, test_case.bytes);
        assert!(result.is_ok(), "Failed to parse value");

        let value = result.unwrap();
        assert_eq!(test_case.expected, value, "Expected {:?}, got: {:?}", test_case.expected, value);
    }
}

#[test]
fn test_parse_record() {
    struct TestCase {
        bytes: &'static [u8],
        expected: Record<'static>,
    }

    let test_cases = [
        TestCase {
            bytes: &[0x02, 0x01, 0x08],
            expected: Record {
                header_size: 2,
                serial_types: vec![SerialType::Integer8],
                values: vec![Value::Integer(8)],
            },
        },
        TestCase {
            bytes: &[0x02, 0x17, 0x68, 0x65, 0x6c, 0x6c, 0x6f],
            expected: Record {
                header_size: 2,
                serial_types: vec![SerialType::Text(5)],
                values: vec![Value::Text("hello".into())],
            },
        },
        TestCase {
            bytes: &[0x03, 0x17, 0x01, 0x68, 0x65, 0x6c, 0x6c, 0x6f, 0x7f],
            expected: Record {
                header_size: 3,
                serial_types: vec![SerialType::Text(5), SerialType::Integer8],
                values: vec![Value::Text("hello".into()), Value::Integer(127)],
            },
        },
        TestCase {
            bytes: &[0x03, 0x01, 0x17, 0x7f, 0x68, 0x65, 0x6c, 0x6c, 0x6f],
            expected: Record {
                header_size: 3,
                serial_types: vec![SerialType::Integer8, SerialType::Text(5)],
                values: vec![Value::Integer(127), Value::Text("hello".into())],
            },
        },
    ];

    for test_case in test_cases {
        let result = Record::parse(test_case.bytes);
        assert!(result.is_ok(), "Failed to parse record");

        let record = result.unwrap();
        assert_eq!(test_case.expected, record);
    }
}

#[test]
fn test_parse_table_leaf_cell() {
    struct TestCase {
        bytes: &'static [u8],
        btree_page_type: BTreePageType,
        expected: TableLeafCell<'static>,
    }

    let test_cases = [
        TestCase {
            bytes: &[0x04, 0x01, 0x02, 0x01, 0x08],
            btree_page_type: BTreePageType::TableLeaf,
            expected: TableLeafCell::TableLeaf {
                payload_size: 4,
                rowid: 1,
                payload: Record {
                    header_size: 2,
                    serial_types: vec![SerialType::Integer8],
                    values: vec![Value::Integer(8)],
                },
                overflow_page: None,
            },
        },
        TestCase {
            bytes: &[0x0a, 0x01, 0x03, 0x01, 0x17, 0x08, 0x68, 0x65, 0x06c, 0x6c, 0x6f, 0x7f],
            btree_page_type: BTreePageType::TableLeaf,
            expected: TableLeafCell::TableLeaf {
                payload_size: 10,
                rowid: 1,
                payload: Record {
                    header_size: 3,
                    serial_types: vec![SerialType::Integer8, SerialType::Text(5)],
                    values: vec![Value::Integer(8), Value::Text("hello".into())],
                },
                overflow_page: None,
            },
        },
        TestCase {
            bytes: &[0x0a, 0x01, 0x03, 0x17, 0x01, 0x68, 0x65, 0x06c, 0x6c, 0x6f, 0x7f],
            btree_page_type: BTreePageType::TableLeaf,
            expected: TableLeafCell::TableLeaf {
                payload_size: 10,
                rowid: 1,
                payload: Record {
                    header_size: 3,
                    serial_types: vec![SerialType::Text(5), SerialType::Integer8],
                    values: vec![Value::Text("hello".into()), Value::Integer(127)],
                },
                overflow_page: None,
            },
        },
    ];

    for test_case in test_cases {
        let result = TableLeafCell::parse(test_case.btree_page_type, test_case.bytes);
        assert!(result.is_ok(), "Failed to parse record");

        let table_leaf_cell = result.unwrap();
        assert_eq!(test_case.expected, table_leaf_cell);
    }
}

#[test]
fn varint_of_empty_input_is_zero_in_zero_bytes() {
    let varint = Varint::from_bytes(&[]).unwrap();
    assert_eq!(varint, Varint { value: 0, size: 0 });
}

#[test]
fn varint_stops_at_the_end_of_a_short_slice() {
    let varint = Varint::from_bytes(&[0x81, 0x82]).unwrap();
    assert_eq!(varint, Varint { value: 130, size: 2 });
}

#[test]
fn varint_ignores_bytes_after_its_end() {
    let alone = Varint::from_bytes(&[0x81, 0x01]).unwrap();
    let followed = Varint::from_bytes(&[0x81, 0x01, 0xaa, 0x7f]).unwrap();
    assert_eq!(alone, followed);
    assert_eq!(alone, Varint { value: 129, size: 2 });
    let nine = [0x80, 0x80, 0x80, 0x80, 0x80, 0x80, 0x80, 0x81, 0x02];
    let nine_followed = [0x80, 0x80, 0x80, 0x80, 0x80, 0x80, 0x80, 0x81, 0x02, 0x03];
    assert_eq!(Varint::from_bytes(&nine).unwrap(), Varint::from_bytes(&nine_followed).unwrap());
    assert_eq!(Varint::from_bytes(&nine).unwrap(), Varint { value: 258, size: 9 });
}

#[test]
fn varint_value_fits_seven_bits_per_byte() {
    let two = Varint::from_bytes(&[0xff, 0x7f, 0x00]).unwrap();
    assert_eq!(two.size, 2);
    assert!(two.value < 128 * 128);
    let three = Varint::from_bytes(&[0x81, 0x80, 0x00]).unwrap();
    assert_eq!(three.size, 3);
    assert_eq!(three.value, 128 * 128);
}

#[test]
fn serial_type_sizes_follow_the_codes() {
    let sizes = [0usize, 1, 2, 3, 4, 6, 8, 8, 1, 1];
    for (code, size) in sizes.iter().enumerate() {
        assert_eq!(SerialType::from_value(code as u64).size(), *size);
    }
    assert_eq!(SerialType::from_value(100).size(), 44);
    assert_eq!(SerialType::from_value(101).size(), 44);
    assert_eq!(SerialType::from_value(10), SerialType::Null);
    assert_eq!(SerialType::from_value(11), SerialType::Null);
    assert_eq!(SerialType::Text(7).size(), 7);
    assert_eq!(SerialType::Blob(3).size(), 3);
}

#[test]
fn small_integers_are_not_sign_extended() {
    assert_eq!(Record::parse_value(&SerialType::Integer8, &[0xff]), Ok(Value::Integer(255)));
    assert_eq!(Record::parse_value(&SerialType::Integer16, &[0x01, 0x00]), Ok(Value::Integer(256)));
    assert_eq!(
        Record::parse_value(&SerialType::Integer32, &[0x80, 0x00, 0x00, 0x01, 0x55]),
        Ok(Value::Integer(0x8000_0001))
    );
    assert_eq!(
        Record::parse_value(&SerialType::Integer48, &[0, 0, 0, 0, 1, 2]),
        Ok(Value::Integer(258))
    );
    assert_eq!(
        Record::parse_value(&SerialType::Integer64, &[0x80, 0, 0, 0, 0, 0, 0, 0]),
        Ok(Value::Integer(i64::MIN))
    );
}

#[test]
fn blob_values_copy_their_bytes() {
    assert_eq!(
        Record::parse_value(&SerialType::Blob(3), &[1, 2, 3, 4]),
        Ok(Value::Blob(vec![1u8, 2, 3].into()))
    );
    assert_eq!(Record::parse_value(&SerialType::Blob(0), &[]), Ok(Value::Blob(Vec::<u8>::new().into())));
    let bytes = [9u8, 8, 7];
    match Record::parse_value(&SerialType::Blob(2), &bytes) {
        Ok(Value::Blob(std::borrow::Cow::Borrowed(b))) => assert_eq!(b, &bytes[..2]),
        other => panic!("expected a borrowed blob, got {:?}", other),
    }
    match Record::parse_value(&SerialType::Text(2), b"hi!") {
        Ok(Value::Text(std::borrow::Cow::Borrowed(t))) => assert_eq!(t, "hi"),
        other => panic!("expected a borrowed text, got {:?}", other),
    }
    let value = Record::parse_value(&SerialType::Text(2), b"hi!").unwrap();
    assert_eq!(value.clone(), value);
}

#[test]
fn unsupported_serial_types_are_rejected() {
    for serial_type in [
        SerialType::Null,
        SerialType::Integer24,
        SerialType::Float64,
        SerialType::Zero,
        SerialType::One,
    ] {
        assert_eq!(
            Record::parse_value(&serial_type, &[0; 8]),
            Err(ParseError::UnsupportedSerialType)
        );
    }
}

#[test]
fn invalid_utf8_text_is_rejected() {
    assert_eq!(Record::parse_value(&SerialType::Text(2), &[0xc3, 0x28]), Err(ParseError::InvalidUtf8));
    assert_eq!(
        Record::parse_value(&SerialType::Text(2), &[0xc3, 0xa9]),
        Ok(Value::Text("\u{e9}".into()))
    );
}

#[test]
fn record_has_one_value_per_serial_type() {
    let record =
        Record::parse(&[0x04, 0x01, 0x17, 0x12, 0x7f, 0x68, 0x65, 0x6c, 0x6c, 0x6f, 0xaa, 0xbb, 0xcc])
            .unwrap();
    assert_eq!(record.header_size, 4);
    assert_eq!(record.serial_types.len(), record.values.len());
    assert_eq!(
        record.values,
        vec![Value::Integer(127), Value::Text("hello".into()), Value::Blob(vec![0xaau8, 0xbb, 0xcc].into())]
    );
}

#[test]
fn record_with_no_columns() {
    let record = Record::parse(&[0x01]).unwrap();
    assert_eq!(record, Record { header_size: 1, serial_types: vec![], values: vec![] });
    let empty = Record::parse(&[]).unwrap();
    assert_eq!(empty, Record { header_size: 0, serial_types: vec![], values: vec![] });
}

#[test]
fn record_with_unsupported_column_is_rejected() {
    assert_eq!(Record::parse(&[0x02, 0x00]), Err(ParseError::UnsupportedSerialType));
    assert_eq!(Record::parse(&[0x03, 0x01, 0x08, 0x05]), Err(ParseError::UnsupportedSerialType));
    assert_eq!(Record::parse(&[0x02, 0x11, 0xff, 0xfe]), Err(ParseError::InvalidUtf8));
}

#[test]
fn cells_of_other_pages_are_rejected() {
    for page_type in [
        BTreePageType::TableInterior,
        BTreePageType::IndexInterior,
        BTreePageType::IndexLeaf,
    ] {
        assert_eq!(
            TableLeafCell::parse(page_type, &[0x04, 0x01, 0x02, 0x01, 0x08]),
            Err(ParseError::UnsupportedPageType)
        );
    }
}

#[test]
fn table_leaf_cell_with_a_bad_record_is_rejected() {
    assert_eq!(
        TableLeafCell::parse(BTreePageType::TableLeaf, &[0x03, 0x81, 0x00, 0x02, 0x07, 0x00]),
        Err(ParseError::UnsupportedSerialType)
    );
}

#[test]
fn bytes_after_a_record_are_ignored() {
    let cases: [&[u8]; 3] = [
        &[0x02, 0x01, 0x08],
        &[0x03, 0x17, 0x01, 0x68, 0x65, 0x6c, 0x6c, 0x6f, 0x7f],
        &[0x02, 0x00],
    ];
    for bytes in cases {
        let mut extended = bytes.to_vec();
        extended.extend_from_slice(&[0xaa, 0x81, 0x00]);
        assert_eq!(Record::parse(bytes), Record::parse(&extended));
    }
}

fn code_of(t: SerialType) -> u64 {
    match t {
        SerialType::Null => 0,
        SerialType::Integer8 => 1,
        SerialType::Integer16 => 2,
        SerialType::Integer24 => 3,
        SerialType::Integer32 => 4,
        SerialType::Integer48 => 5,
        SerialType::Integer64 => 6,
        SerialType::Float64 => 7,
        SerialType::Zero => 8,
        SerialType::One => 9,
        SerialType::Blob(k) => 2 * k as u64 + 12,
        SerialType::Text(k) => 2 * k as u64 + 13,
    }
}

#[test]
fn serial_type_codes_round_trip() {
    for code in (0..=9u64).chain(12..=300) {
        let t = SerialType::from_value(code);
        assert_eq!(code_of(t), code);
        assert_eq!(SerialType::from_value(code_of(t)), t);
    }
    assert_eq!(SerialType::from_value(u64::MAX), SerialType::Text(((u64::MAX - 13) / 2) as usize));
}
