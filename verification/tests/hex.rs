use r2_relay::hex::{encode, hex_decode, hex_has_prefix, slices_inside_char};
use r2_relay::state::{hash_from_bytes, hash_to_bytes};

#[test]
fn encode_is_lowercase_two_digits_per_byte() {
    assert_eq!(encode(&[0x00, 0x0f, 0xab, 0xff]), "000fabff");
    assert_eq!(encode(&[]), "");
}

#[test]
fn decode_accepts_both_cases() {
    assert_eq!(hex_decode("00ffAb"), Some(vec![0x00, 0xff, 0xab]));
    assert_eq!(hex_decode(""), Some(vec![]));
}

#[test]
fn decode_accepts_plus_sign_pairs() {
    // `u8::from_str_radix` reads a leading `+`, so "+a" is the byte 10.
    assert_eq!(hex_decode("+a0f"), Some(vec![0x0a, 0x0f]));
}

#[test]
fn decode_rejects_odd_length_and_bad_digits() {
    assert_eq!(hex_decode("abc"), None);
    assert_eq!(hex_decode("zz"), None);
    assert_eq!(hex_decode("-1"), None);
    assert_eq!(hex_decode("1+"), None);
    assert_eq!(hex_decode("é"), None);
}

#[test]
fn decode_encode_roundtrip() {
    let bytes: Vec<u8> = (0..=255u8).collect();
    assert_eq!(hex_decode(&encode(&bytes)), Some(bytes));
}

#[test]
fn slicing_inside_a_character_is_detected() {
    assert!(slices_inside_char("a\u{e9}b"));
    assert!(!slices_inside_char("\u{e9}ab"));
    assert!(!slices_inside_char("abcd"));
    assert!(!slices_inside_char("a\u{e9}"));
}

#[test]
fn prefix_of_hex() {
    assert!(hex_has_prefix(&[0xab, 0xcd], b"abc"));
    assert!(!hex_has_prefix(&[0xab, 0xcd], b"abd"));
    assert!(!hex_has_prefix(&[0xab], b"abc"));
    assert!(!hex_has_prefix(&[0xab, 0xcd], b"ABC"));
}

#[test]
fn hash_bytes_are_big_endian() {
    let b = [0x01, 0x23, 0x45, 0x67, 0x89, 0xab, 0xcd, 0xef];
    let h = hash_from_bytes(&b);
    assert_eq!(h, 0x0123_4567_89ab_cdef);
    assert_eq!(hash_to_bytes(h), b.to_vec());
}

#[test]
fn encoding_decoded_hex_gives_lowercase() {
    let s = "00AbCdEF19";
    assert_eq!(encode(&hex_decode(s).unwrap()), s.to_ascii_lowercase());
}
