use siglus_chs2cht::chars::{chars_of, string_of};
use siglus_chs2cht::text::is_whitespace;
use siglus_chs2cht::utf16::{decode_utf16le, encode_utf16le, utf16_len};

fn chars(s: &str) -> Vec<char> {
    s.chars().collect()
}

#[test]
fn whitespace_matches_std_for_every_char() {
    for v in 0u32..=0x10FFFF {
        if let Some(c) = char::from_u32(v) {
            assert_eq!(is_whitespace(c), c.is_whitespace(), "U+{:04X}", v);
        }
    }
}

#[test]
fn utf16_roundtrip() {
    for s in ["", "abc", "中文", "\u{20000}\u{10FFFF}x", "\u{FFFF}\u{E000}"] {
        let bytes = encode_utf16le(&chars(s));
        let expected: Vec<u8> = s.encode_utf16().flat_map(|u| u.to_le_bytes()).collect();
        assert_eq!(bytes, expected);
        assert_eq!(decode_utf16le(&bytes), s);
        assert_eq!(utf16_len(&chars(s)), s.encode_utf16().count());
    }
}

#[test]
fn surrogate_pair_decodes_to_one_char() {
    assert_eq!(decode_utf16le(&[0x40, 0xD8, 0x00, 0xDC]), "\u{20000}");
    assert_eq!(encode_utf16le(&['\u{20000}']), vec![0x40, 0xD8, 0x00, 0xDC]);
}

#[test]
fn lossy_decoding_matches_std() {
    let cases: Vec<Vec<u16>> = vec![
        vec![0xD800],
        vec![0xDC00, 0x41],
        vec![0xD800, 0xD800, 0xDC00],
        vec![0xD83D, 0x41],
        vec![0x41, 0xDBFF, 0xDFFF, 0xDFFF],
    ];
    for units in cases {
        let bytes: Vec<u8> = units.iter().flat_map(|u| u.to_le_bytes()).collect();
        assert_eq!(decode_utf16le(&bytes), String::from_utf16_lossy(&units));
    }
}

#[test]
fn odd_last_byte_is_dropped() {
    assert_eq!(decode_utf16le(&[0x41, 0x00, 0x42]), "A");
    assert_eq!(decode_utf16le(&[0x41]), "");
}

#[test]
fn chars_and_strings() {
    assert_eq!(chars_of("a中\u{20000}"), vec!['a', '中', '\u{20000}']);
    assert_eq!(string_of(&['a', '中', '\u{20000}']), "a中\u{20000}");
}
