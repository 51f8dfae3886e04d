use kaitai::{BytesReader, KError, KStream, Needed};

#[test]
fn strip_right_drops_trailing_padding_only() {
    let io = BytesReader::new(&[]);
    assert_eq!(io.bytes_strip_right(&[1, 0, 2, 0, 0], 0), &[1u8, 0, 2][..]);
    assert_eq!(io.bytes_strip_right(&[1, 2, 3], 0), &[1u8, 2, 3][..]);
    assert_eq!(io.bytes_strip_right(&[7, 7, 7], 7), &b""[..]);
    assert_eq!(io.bytes_strip_right(&[], 7), &b""[..]);
    assert_eq!(io.bytes_strip_right(&[0x40, 0x2B, 0x2B], 0x2B), &[0x40u8][..]);
}

#[test]
fn terminate_cuts_at_the_first_terminator() {
    let io = BytesReader::new(&[]);
    assert_eq!(io.bytes_terminate(b"foo\0bar\0", 0, false), &b"foo"[..]);
    assert_eq!(io.bytes_terminate(b"foo\0bar\0", 0, true), &b"foo\0"[..]);
    assert_eq!(io.bytes_terminate(b"\0foo", 0, false), &b""[..]);
    assert_eq!(io.bytes_terminate(b"\0foo", 0, true), &b"\0"[..]);
}

#[test]
fn terminate_without_terminator_returns_everything() {
    let io = BytesReader::new(&[]);
    assert_eq!(io.bytes_terminate(b"foobar", 0, false), &b"foobar"[..]);
    assert_eq!(io.bytes_terminate(b"foobar", 0, true), &b"foobar"[..]);
    assert_eq!(io.bytes_terminate(b"", 0, true), &b""[..]);
}

#[test]
fn xor_with_one_key() {
    assert_eq!(BytesReader::process_xor_one(&[0x00, 0xFF, 0x5A], 0x0F), vec![0x0F, 0xF0, 0x55]);
    assert_eq!(BytesReader::process_xor_one(&[], 0x0F), Vec::<u8>::new());
    let data = [1u8, 2, 3, 250];
    let once = BytesReader::process_xor_one(&data, 0xA7);
    assert_eq!(BytesReader::process_xor_one(&once, 0xA7), data.to_vec());
}

#[test]
fn xor_with_a_key_sequence() {
    assert_eq!(
        BytesReader::process_xor_many(&[0x10, 0x20, 0x30, 0x40, 0x50], &[0x01, 0x02]),
        vec![0x11, 0x22, 0x31, 0x42, 0x51]
    );
    assert_eq!(BytesReader::process_xor_many(&[0xAA, 0xBB], &[0xFF, 0x00, 0x11]), vec![0x55, 0xBB]);
    assert_eq!(BytesReader::process_xor_many(&[], &[1]), Vec::<u8>::new());
    let data = [9u8, 8, 7, 6, 5, 4, 3];
    let key = [0x13u8, 0x37, 0xC0];
    let once = BytesReader::process_xor_many(&data, &key);
    assert_eq!(BytesReader::process_xor_many(&once, &key), data.to_vec());
}

#[test]
fn rotate_left_within_each_byte() {
    assert_eq!(BytesReader::process_rotate_left(&[0b1000_0001, 0x0F], 1), vec![0b0000_0011, 0x1E]);
    assert_eq!(BytesReader::process_rotate_left(&[0b1000_0001, 0x0F], 4), vec![0b0001_1000, 0xF0]);
    assert_eq!(BytesReader::process_rotate_left(&[0b1000_0001, 0x0F], 7), vec![0b1100_0000, 0x87]);
    assert_eq!(BytesReader::process_rotate_left(&[0xA5, 0x3C], 0), vec![0xA5, 0x3C]);
    assert_eq!(BytesReader::process_rotate_left(&[], 3), Vec::<u8>::new());
}

#[test]
fn zlib_inflates_a_stream() {
    let packed = [120u8, 218, 203, 72, 205, 201, 201, 215, 81, 200, 64, 162, 0, 68, 40, 6, 213];
    assert_eq!(BytesReader::process_zlib(&packed), Ok(b"hello, hello, hello".to_vec()));
    let empty = [120u8, 218, 3, 0, 0, 0, 0, 1];
    assert_eq!(BytesReader::process_zlib(&empty), Ok(Vec::new()));
}

#[test]
fn zlib_reports_a_broken_stream() {
    let broken = [1u8, 2, 3, 4, 5, 6];
    match BytesReader::process_zlib(&broken) {
        Err(KError::IoError { desc }) => assert!(!desc.is_empty()),
        other => panic!("expected an IoError, got {:?}", other),
    }
    let cut = [120u8, 218, 203, 72, 205];
    assert!(matches!(BytesReader::process_zlib(&cut), Err(KError::IoError { .. })));
}

#[test]
fn inflate_outcome_maps_both_cases() {
    assert_eq!(kaitai::inflate::inflate_outcome(Ok(vec![1, 2, 3])), Ok(vec![1, 2, 3]));
    assert_eq!(
        kaitai::inflate::inflate_outcome(Err("corrupt".to_string())),
        Err(KError::IoError { desc: "corrupt".to_string() })
    );
}

#[test]
fn io_failure_becomes_io_error_with_its_text() {
    let err = std::io::Error::new(std::io::ErrorKind::Other, "disk on fire");
    assert_eq!(KError::from(err), KError::IoError { desc: "disk on fire".to_string() });
}

#[test]
fn same_bytes_compares_contents() {
    assert!(kaitai::stream::same_bytes(&[1, 2, 3], &[1, 2, 3]));
    assert!(!kaitai::stream::same_bytes(&[1, 2, 3], &[1, 2, 4]));
    assert!(!kaitai::stream::same_bytes(&[1, 2, 3], &[1, 2]));
    assert!(kaitai::stream::same_bytes(&[], &[]));
}

#[test]
fn words_of_up_to_eight_bytes() {
    let bytes = [0xAAu8, 0x01, 0x02, 0x03, 0xBB];
    assert_eq!(kaitai::endian::be_word(&bytes, 1, 3), 0x010203);
    assert_eq!(kaitai::endian::le_word(&bytes, 1, 3), 0x030201);
    assert_eq!(kaitai::endian::be_word(&bytes, 2, 0), 0);
    assert_eq!(kaitai::endian::le_word(&bytes, 5, 0), 0);
}

#[test]
fn error_values_compare_and_clone() {
    let all = vec![
        KError::Incomplete(Needed::Size(3)),
        KError::Incomplete(Needed::Unknown),
        KError::EmptyIterator,
        KError::Encoding { desc: "e".to_string() },
        KError::MissingInstanceValue,
        KError::MissingRoot,
        KError::MissingParent,
        KError::ReadBitsTooLarge { requested: 65 },
        KError::UnexpectedContents { actual: vec![1, 2] },
        KError::ValidationNotEqual("v".to_string()),
        KError::UnknownVariant(-4),
        KError::EncounteredEOF,
        KError::IoError { desc: "io".to_string() },
        KError::CastError,
        KError::UndecidedEndiannessError("u".to_string()),
    ];
    for (i, a) in all.iter().enumerate() {
        assert_eq!(a.clone(), *a);
        for (j, b) in all.iter().enumerate() {
            assert_eq!(a == b, i == j);
        }
    }
    assert_ne!(KError::Incomplete(Needed::Size(3)), KError::Incomplete(Needed::Size(4)));
    assert_ne!(
        KError::UnexpectedContents { actual: vec![1] },
        KError::UnexpectedContents { actual: vec![2] }
    );
}
