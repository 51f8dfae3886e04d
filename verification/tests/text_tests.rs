use kaitai::text::{decode_cp437, decode_outcome, join_reversed};
use kaitai::{decode_string, modulo, reverse_string, KError};

#[test]
fn decode_by_whatwg_label() {
    assert_eq!(decode_string(b"hello", "utf-8"), Ok("hello".to_string()));
    assert_eq!(decode_string(b"hello", "UTF-8"), Ok("hello".to_string()));
    assert_eq!(
        decode_string(&[104, 0, 233, 0, 108, 0, 108, 0, 111, 0], "utf-16le"),
        Ok("h\u{e9}llo".to_string())
    );
    assert_eq!(
        decode_string(&[207, 240, 232, 226, 229, 242], "windows-1251"),
        Ok("\u{41f}\u{440}\u{438}\u{432}\u{435}\u{442}".to_string())
    );
    assert_eq!(decode_string(&[0x63, 0x61, 0x66, 0xE9], "iso-8859-1"), Ok("caf\u{e9}".to_string()));
}

#[test]
fn decode_replaces_malformed_units() {
    assert_eq!(decode_string(&[0x61, 0xFF, 0x62], "utf-8"), Ok("a\u{FFFD}b".to_string()));
}

#[test]
fn decode_code_page_437() {
    assert_eq!(decode_string(&[0x41, 0x80, 0x81, 0xFE], "cp437"), Ok("A\u{c7}\u{fc}\u{25a0}".to_string()));
    assert_eq!(decode_string(&[0x41, 0x80], "CP437"), Ok("A\u{c7}".to_string()));
    assert_eq!(decode_string(&[], "cp437"), Ok(String::new()));
    assert_eq!(decode_cp437(&[0x68, 0x69, 0x82]), "hi\u{e9}".to_string());
}

#[test]
fn decode_code_page_437_replaces_bytes_without_entry() {
    assert_eq!(
        decode_string(&[0x00, 0x41, 0x04, 0x05], "cp437"),
        Ok("\u{FFFD}A\u{FFFD} ".to_string())
    );
}

#[test]
fn decode_unknown_label() {
    assert_eq!(
        decode_string(b"abc", "no-such-encoding"),
        Err(KError::Encoding {
            desc: "decode_string: unknown WHATWG Encoding standard: no-such-encoding".to_string()
        })
    );
}

#[test]
fn decode_outcome_on_given_results() {
    assert_eq!(
        decode_outcome(b"x", "utf-8", Some(Ok("text".to_string())), "utf-8"),
        Ok("text".to_string())
    );
    assert_eq!(
        decode_outcome(b"x", "utf-8", Some(Err("bad".to_string())), "utf-8"),
        Err(KError::Encoding { desc: "bad".to_string() })
    );
    assert_eq!(decode_outcome(&[0x41], "Cp437", None, "cp437"), Ok("A".to_string()));
    assert_eq!(
        decode_outcome(&[0x41], "Cp438", None, "cp438"),
        Err(KError::Encoding {
            desc: "decode_string: unknown WHATWG Encoding standard: Cp438".to_string()
        })
    );
}

#[test]
fn reverse_keeps_clusters_whole() {
    assert_eq!(reverse_string("abc"), Ok("cba".to_string()));
    assert_eq!(reverse_string(""), Ok(String::new()));
    assert_eq!(reverse_string("ae\u{301}o"), Ok("oe\u{301}a".to_string()));
    assert_eq!(reverse_string("a\r\nb"), Ok("b\r\na".to_string()));
    assert_eq!(
        reverse_string("x\u{1F1F7}\u{1F1FA}y"),
        Ok("y\u{1F1F7}\u{1F1FA}x".to_string())
    );
    assert_eq!(reverse_string("\u{1F600}!"), Ok("!\u{1F600}".to_string()));
}

#[test]
fn reverse_twice_gives_the_text_back() {
    for s in ["", "a", "hello world", "ae\u{301}o\u{308}\u{332}z", "a\r\nb", "\u{1F600}ok"] {
        let once = reverse_string(s).unwrap();
        assert_eq!(reverse_string(&once), Ok(s.to_string()));
    }
}

#[test]
fn join_reversed_puts_the_last_first() {
    let parts = vec!["ab".to_string(), "c".to_string(), "".to_string(), "def".to_string()];
    assert_eq!(join_reversed(&parts), "defcab".to_string());
    assert_eq!(join_reversed(&Vec::new()), String::new());
}

#[test]
fn modulo_is_floored() {
    assert_eq!(modulo(7, 3), 1);
    assert_eq!(modulo(-7, 3), 2);
    assert_eq!(modulo(7, -3), -2);
    assert_eq!(modulo(-7, -3), -1);
    assert_eq!(modulo(6, 3), 0);
    assert_eq!(modulo(-6, 3), 0);
    assert_eq!(modulo(6, -3), 0);
    assert_eq!(modulo(0, 5), 0);
    assert_eq!(modulo(-1, 5), 4);
}

#[test]
fn modulo_at_the_limits() {
    assert_eq!(modulo(i64::MIN, -1), 0);
    assert_eq!(modulo(i64::MIN, 1), 0);
    assert_eq!(modulo(i64::MIN, i64::MAX), i64::MAX - 1);
    assert_eq!(modulo(i64::MAX, i64::MIN), -1);
    assert_eq!(modulo(i64::MIN, i64::MIN), 0);
    assert_eq!(modulo(-1, i64::MIN), -1);
    assert_eq!(modulo(1, i64::MIN), i64::MIN + 1);
}

#[test]
fn modulo_with_positive_divisor_is_in_range_and_congruent() {
    for a in [-20i64, -7, -1, 0, 1, 7, 20, i64::MAX, i64::MIN] {
        for b in [1i64, 2, 3, 7, 1000] {
            let r = modulo(a, b);
            assert!(0 <= r && r < b);
            assert_eq!((a as i128 - r as i128) % b as i128, 0);
        }
    }
}

#[test]
fn reverse_joins_a_leading_mark_to_what_follows_it() {
    let once = reverse_string("\u{301}e").unwrap();
    assert_eq!(once, "e\u{301}".to_string());
    assert_eq!(reverse_string(&once), Ok("e\u{301}".to_string()));
}
