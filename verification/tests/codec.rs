use starknet_codec::byte_array::ByteArray;
use starknet_codec::cairo_string_parser::parse_cairo_string;
use starknet_codec::cairo_string_parser::ParseError;
use starknet_codec::felt::Felt;
use starknet_codec::u256::to_hex_str;
use starknet_codec::u256::CairoU256;
use starknet_codec::u256::ConversionError;

fn felt_from(bytes: &[u8]) -> Felt {
    Felt::from_chunk(&bytes.to_vec(), 0, bytes.len())
}

fn round_trip(s: &str) {
    let ba = ByteArray::from_string(s);
    assert_eq!(ba.to_string().unwrap(), s);
}

#[test]
fn byte_array_round_trip_boundary_lengths() {
    round_trip("");
    round_trip("a");
    let base = "abcdefghijklmnopqrstuvwxyz0123456789";
    for len in [30, 31, 32, 61, 62, 63] {
        let s: String = base.chars().cycle().take(len).collect();
        assert_eq!(s.len(), len);
        round_trip(&s);
    }
}

#[test]
fn byte_array_round_trip_multibyte_straddles_boundary() {
    // 30 single-byte characters then a two-byte character: its encoding
    // crosses the 31-byte word boundary.
    let s = format!("{}\u{e9}", "a".repeat(30));
    assert_eq!(s.as_bytes().len(), 32);
    round_trip(&s);
    let t = format!("{}\u{1f600}{}", "x".repeat(29), "tail");
    round_trip(&t);
}

#[test]
fn byte_array_chunking_empty() {
    let ba = ByteArray::from_string("");
    assert_eq!(ba.data.len(), 0);
    assert_eq!(ba.pending_word_len, 0);
    assert_eq!(ba.pending_word, Felt::zero());
}

#[test]
fn byte_array_chunking_exact_31() {
    let s = "a".repeat(31);
    let ba = ByteArray::from_string(&s);
    assert_eq!(ba.data.len(), 1);
    assert_eq!(ba.pending_word_len, 0);
    assert_eq!(ba.pending_word, Felt::zero());
    assert_eq!(ba.data[0], felt_from(s.as_bytes()));
}

#[test]
fn byte_array_chunking_32_bytes() {
    let s = format!("{}Z", "a".repeat(31));
    let ba = ByteArray::from_string(&s);
    assert_eq!(ba.data.len(), 1);
    assert_eq!(ba.pending_word_len, 1);
    assert_eq!(ba.pending_word, felt_from(b"Z"));
    assert_eq!(ba.data[0], felt_from(&s.as_bytes()[..31]));
}

#[test]
fn parse_empty_sequence() {
    assert_eq!(parse_cairo_string(vec![]), Err(ParseError::NoValueFound));
}

#[test]
fn parse_single_short_string() {
    let r = parse_cairo_string(vec![felt_from(b"hi")]);
    assert_eq!(r.unwrap(), "hi");
}

#[test]
fn parse_single_zero_felt_is_empty() {
    let r = parse_cairo_string(vec![Felt::zero()]);
    assert_eq!(r.unwrap(), "");
}

#[test]
fn parse_legacy_array_concatenates() {
    let elements = vec![
        felt_from(&[3]),
        felt_from(b"foo"),
        felt_from(b"bar"),
        felt_from(b"baz"),
    ];
    assert_eq!(parse_cairo_string(elements).unwrap(), "foobarbaz");
}

#[test]
fn parse_legacy_array_bad_element() {
    // A zero byte inside the text is not a valid short string.
    let elements = vec![felt_from(&[2]), felt_from(b"ok"), felt_from(&[b'a', 0, b'b'])];
    assert_eq!(
        parse_cairo_string(elements),
        Err(ParseError::ShortStringError)
    );
}

#[test]
fn parse_short_string_high_bytes_as_latin1() {
    // Bytes above 127 decode as the characters with those code points.
    let r = parse_cairo_string(vec![felt_from(&[0xE9])]);
    assert_eq!(r.unwrap(), "\u{e9}");
}

#[test]
fn parse_byte_array_struct() {
    // data length word, then the pending word and its length.
    let elements = vec![felt_from(&[0]), felt_from(b"hello"), felt_from(&[5])];
    assert_eq!(parse_cairo_string(elements).unwrap(), "hello");
}

#[test]
fn parse_byte_array_struct_long() {
    let s = format!("{}end", "m".repeat(31));
    let ba = ByteArray::from_string(&s);
    let mut elements = vec![felt_from(&[ba.data.len() as u8])];
    elements.extend(ba.data.iter().cloned());
    elements.push(ba.pending_word.clone());
    elements.push(felt_from(&[ba.pending_word_len as u8]));
    assert_eq!(parse_cairo_string(elements).unwrap(), s);
}

#[test]
fn parse_two_elements_not_legacy() {
    let elements = vec![felt_from(&[7]), felt_from(b"xy")];
    assert_eq!(parse_cairo_string(elements), Err(ParseError::ByteArrayError));
}

#[test]
fn parse_pending_length_out_of_range() {
    let elements = vec![felt_from(&[9]), felt_from(b"abc"), felt_from(&[31])];
    assert_eq!(parse_cairo_string(elements), Err(ParseError::ByteArrayError));
}

#[test]
fn parse_byte_array_invalid_utf8() {
    // 0xC3 alone is a truncated two-byte sequence.
    let elements = vec![felt_from(&[9]), felt_from(&[0xC3]), felt_from(&[1])];
    assert_eq!(parse_cairo_string(elements), Err(ParseError::ByteArrayError));
}

#[test]
fn u256_from_hex_small() {
    let u = CairoU256::from_hex_be("0x1").unwrap();
    assert_eq!(u.low, 1);
    assert_eq!(u.high, 0);
}

#[test]
fn u256_from_hex_without_prefix() {
    let u = CairoU256::from_hex_be("ff").unwrap();
    assert_eq!(u.low, 0xff);
    assert_eq!(u.high, 0);
}

#[test]
fn u256_from_hex_spanning_both_limbs() {
    let u = CairoU256::from_hex_be("0x1000000000000000000000000000000002").unwrap();
    assert_eq!(u.low, 2);
    assert_eq!(u.high, 0x10);
}

#[test]
fn u256_hex_round_trip_canonical() {
    let h = "0x00000000000000000000000000000000000000000000000000000000deadbeef";
    let u = CairoU256::from_hex_be(h).unwrap();
    assert_eq!(u.to_hex(), h);
    assert_eq!(to_hex_str(&u), h);

    let max = format!("0x{}", "f".repeat(64));
    let m = CairoU256::from_hex_be(&max).unwrap();
    assert_eq!(m.to_hex(), max);
    assert_eq!(m.low, u128::MAX);
    assert_eq!(m.high, u128::MAX);
}

#[test]
fn u256_to_hex_pads_to_64_digits() {
    let u = CairoU256 { low: 0xabc, high: 0 };
    let h = u.to_hex();
    assert_eq!(h.len(), 66);
    assert_eq!(h, format!("0x{}abc", "0".repeat(61)));
}

#[test]
fn u256_decimal_padding() {
    let u = CairoU256::from_hex_be("0x1").unwrap();
    let padded = u.to_decimal(true);
    assert_eq!(padded.len(), 78);
    assert!(padded.ends_with('1'));
    assert_eq!(padded, format!("{}1", "0".repeat(77)));
    assert_eq!(u.to_decimal(false), "1");
}

#[test]
fn u256_decimal_values() {
    let z = CairoU256 { low: 0, high: 0 };
    assert_eq!(z.to_decimal(false), "0");
    let u = CairoU256::from_hex_be("0xff").unwrap();
    assert_eq!(u.to_decimal(false), "255");
    let m = CairoU256 { low: u128::MAX, high: u128::MAX };
    assert_eq!(
        m.to_decimal(false),
        "115792089237316195423570985008687907853269984665640564039457584007913129639935"
    );
    assert_eq!(m.to_decimal(true).len(), 78);
}

#[test]
fn u256_overflow_is_typed_error() {
    // 2^256 itself: one bit too many.
    let h = format!("0x1{}", "0".repeat(64));
    assert_eq!(CairoU256::from_hex_be(&h), Err(ConversionError::Overflow));
    let wide = format!("0x{}", "f".repeat(66));
    assert_eq!(CairoU256::from_hex_be(&wide), Err(ConversionError::Overflow));
}

#[test]
fn u256_invalid_hex() {
    assert_eq!(
        CairoU256::from_hex_be("0xzz"),
        Err(ConversionError::InvalidHex)
    );
    assert_eq!(CairoU256::from_hex_be(""), Err(ConversionError::InvalidHex));
    assert_eq!(
        CairoU256::from_hex_be("0x"),
        Err(ConversionError::InvalidHex)
    );
    assert_eq!(
        CairoU256::from_hex_be("0X1"),
        Err(ConversionError::InvalidHex)
    );
}

#[test]
fn felt_constructors() {
    let z = Felt::zero();
    assert_eq!(z.bytes, vec![0u8; 32]);
    assert!(Felt::from_bytes_be(vec![0u8; 31]).is_none());
    let mut big = vec![0u8; 32];
    big[0] = 0x20;
    assert!(Felt::from_bytes_be(big).is_none());
    let mut ok = vec![0u8; 32];
    ok[31] = 7;
    let f = Felt::from_bytes_be(ok.clone()).unwrap();
    assert_eq!(f.bytes, ok);
    assert_eq!(f.as_u64(), Some(7));
}

#[test]
fn byte_array_decode_rejects_invalid_utf8() {
    let ba = ByteArray {
        data: vec![],
        pending_word: felt_from(&[0xFF, 0xFE]),
        pending_word_len: 2,
    };
    assert!(ba.to_string().is_err());
}
