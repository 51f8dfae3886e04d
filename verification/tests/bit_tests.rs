use kaitai::{BytesReader, KError, KStream, Needed};

#[test]
fn bit_level_big_endian() {
    let bytes = [0xB1u8, 0x62];
    let mut io = BytesReader::new(&bytes);
    assert_eq!(io.read_bits_int_be(4), Ok(0xB));
    assert_eq!(io.read_bits_int_be(4), Ok(0x1));
    assert_eq!(io.read_bits_int_be(4), Ok(0x6));
    assert_eq!(io.read_bits_int_be(4), Ok(0x2));
    assert!(io.is_eof());
}

#[test]
fn bit_level_little_endian_straddling() {
    let bytes = [0xFAu8, 0xCE];
    let mut io = BytesReader::new(&bytes);
    assert_eq!(io.read_bits_int_le(3), Ok(0b010));
    assert_eq!(io.read_bits_int_le(5), Ok(0b11111));
    assert_eq!(io.read_bits_int_le(8), Ok(0xCE));
    assert_eq!(io.read_bits_int_le(65), Err(KError::ReadBitsTooLarge { requested: 65 }));
}

#[test]
fn too_many_bits_in_either_order() {
    let bytes = [0u8; 16];
    let mut io = BytesReader::new(&bytes);
    assert_eq!(io.read_bits_int_be(65), Err(KError::ReadBitsTooLarge { requested: 65 }));
    assert_eq!(io.read_bits_int_le(1000), Err(KError::ReadBitsTooLarge { requested: 1000 }));
    assert_eq!(io.pos(), 0);
}

#[test]
fn pending_bits_keep_the_stream_from_its_end() {
    let bytes = [0xA5u8];
    let mut io = BytesReader::new(&bytes);
    assert_eq!(io.read_bits_int_be(3), Ok(0b101));
    assert_eq!(io.pos(), 1);
    assert_eq!(io.size(), 1);
    assert!(!io.is_eof());
    assert_eq!(io.read_bits_int_be(5), Ok(0b00101));
    assert!(io.is_eof());
}

#[test]
fn align_drops_pending_bits_and_keeps_the_offset() {
    let bytes = [0xA5u8, 0x3C];
    let mut io = BytesReader::new(&bytes);
    assert_eq!(io.read_bits_int_be(3), Ok(0b101));
    assert_eq!(io.align_to_byte(), Ok(()));
    assert_eq!(io.pos(), 1);
    assert_eq!(io.read_bits_int_be(4), Ok(0x3));
    assert_eq!(io.align_to_byte(), Ok(()));
    assert!(io.is_eof());
}

#[test]
fn whole_byte_read_drops_pending_bits() {
    let bytes = [0xA5u8, 0x3C, 0x7E];
    let mut io = BytesReader::new(&bytes);
    assert_eq!(io.read_bits_int_be(3), Ok(0b101));
    assert_eq!(io.read_u1(), Ok(0x3C));
    assert_eq!(io.read_bits_int_be(4), Ok(0x7));
    assert!(!io.is_eof());
    assert_eq!(io.read_bytes_full(), Ok(&b""[..]));
    assert!(io.is_eof());
}

#[test]
fn zero_bits_change_nothing() {
    let bytes = [0xA5u8, 0x3C];
    let mut io = BytesReader::new(&bytes);
    assert_eq!(io.read_bits_int_be(0), Ok(0));
    assert_eq!(io.read_bits_int_le(0), Ok(0));
    assert_eq!(io.pos(), 0);
    assert_eq!(io.read_bits_int_be(3), Ok(0b101));
    assert_eq!(io.read_bits_int_be(0), Ok(0));
    assert_eq!(io.pos(), 1);
    assert_eq!(io.read_bits_int_be(5), Ok(0b00101));
    let mut le = BytesReader::new(&bytes);
    assert_eq!(le.read_bits_int_le(3), Ok(0b101));
    assert_eq!(le.read_bits_int_le(0), Ok(0));
    assert_eq!(le.read_bits_int_le(5), Ok(0b10100));
}

#[test]
fn sixty_four_bits_at_once() {
    let bytes = [0x01u8, 0x23, 0x45, 0x67, 0x89, 0xAB, 0xCD, 0xEF];
    let mut be = BytesReader::new(&bytes);
    assert_eq!(be.read_bits_int_be(64), Ok(0x0123456789ABCDEF));
    assert!(be.is_eof());
    let mut le = BytesReader::new(&bytes);
    assert_eq!(le.read_bits_int_le(64), Ok(0xEFCDAB8967452301));
    assert!(le.is_eof());
}

#[test]
fn sixty_four_bits_across_nine_bytes() {
    let bytes = [0xFFu8, 0x01, 0x23, 0x45, 0x67, 0x89, 0xAB, 0xCD, 0xEF];
    let mut be = BytesReader::new(&bytes);
    assert_eq!(be.read_bits_int_be(4), Ok(0xF));
    assert_eq!(be.read_bits_int_be(64), Ok(0xF0123456789ABCDE));
    assert_eq!(be.read_bits_int_be(4), Ok(0xF));
    assert!(be.is_eof());
    let mut le = BytesReader::new(&bytes);
    assert_eq!(le.read_bits_int_le(4), Ok(0xF));
    assert_eq!(le.read_bits_int_le(64), Ok(0xFCDAB8967452301F));
    assert_eq!(le.read_bits_int_le(4), Ok(0xE));
    assert!(le.is_eof());
}

#[test]
fn bit_read_past_the_end_leaves_the_stream() {
    let bytes = [0xA5u8];
    let mut io = BytesReader::new(&bytes);
    assert_eq!(io.read_bits_int_be(3), Ok(0b101));
    assert_eq!(io.read_bits_int_be(14), Err(KError::Incomplete(Needed::Size(2))));
    assert_eq!(io.pos(), 1);
    assert_eq!(io.read_bits_int_be(5), Ok(0b00101));
    let mut le = BytesReader::new(&bytes);
    assert_eq!(le.read_bits_int_le(9), Err(KError::Incomplete(Needed::Size(1))));
    assert_eq!(le.read_bits_int_le(8), Ok(0xA5));
    assert_eq!(le.read_bits_int_le(1), Err(KError::Incomplete(Needed::Size(1))));
}

fn pack_be(fields: &[(u64, usize)]) -> Vec<u8> {
    let mut out = Vec::new();
    let mut cur: u8 = 0;
    let mut used = 0;
    for &(value, width) in fields {
        for k in (0..width).rev() {
            let bit = ((value >> k) & 1) as u8;
            cur |= bit << (7 - used);
            used += 1;
            if used == 8 {
                out.push(cur);
                cur = 0;
                used = 0;
            }
        }
    }
    if used > 0 {
        out.push(cur);
    }
    out
}

fn pack_le(fields: &[(u64, usize)]) -> Vec<u8> {
    let mut out = Vec::new();
    let mut cur: u8 = 0;
    let mut used = 0;
    for &(value, width) in fields {
        for k in 0..width {
            let bit = ((value >> k) & 1) as u8;
            cur |= bit << used;
            used += 1;
            if used == 8 {
                out.push(cur);
                cur = 0;
                used = 0;
            }
        }
    }
    if used > 0 {
        out.push(cur);
    }
    out
}

fn sample_fields() -> Vec<(u64, usize)> {
    vec![
        (0b101, 3),
        (0, 0),
        (0x1FFF, 13),
        (0xDEADBEEFCAFEF00D, 64),
        (1, 1),
        (0x2A, 7),
        (0x0123456789ABCDE, 60),
        (0xFFFF_FFFF, 32),
        (0, 5),
        (0x155, 9),
    ]
}

#[test]
fn packed_values_come_back_big_endian() {
    let fields = sample_fields();
    let bytes = pack_be(&fields);
    let mut io = BytesReader::new(&bytes);
    for &(value, width) in fields.iter() {
        assert_eq!(io.read_bits_int_be(width), Ok(value));
    }
}

#[test]
fn packed_values_come_back_little_endian() {
    let fields = sample_fields();
    let bytes = pack_le(&fields);
    let mut io = BytesReader::new(&bytes);
    for &(value, width) in fields.iter() {
        assert_eq!(io.read_bits_int_le(width), Ok(value));
    }
}

#[test]
fn every_width_round_trips() {
    let pattern: u64 = 0x9E3779B97F4A7C15;
    for width in 0..=64usize {
        let value = if width == 64 { pattern } else { pattern & ((1u64 << width) - 1) };
        let fields = [(1u64, 1usize), (value, width), (2, 2)];
        let be = pack_be(&fields);
        let mut io = BytesReader::new(&be);
        assert_eq!(io.read_bits_int_be(1), Ok(1));
        assert_eq!(io.read_bits_int_be(width), Ok(value));
        assert_eq!(io.read_bits_int_be(2), Ok(2));
        let le = pack_le(&fields);
        let mut io = BytesReader::new(&le);
        assert_eq!(io.read_bits_int_le(1), Ok(1));
        assert_eq!(io.read_bits_int_le(width), Ok(value));
        assert_eq!(io.read_bits_int_le(2), Ok(2));
    }
}
