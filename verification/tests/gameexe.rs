use siglus_chs2cht::converter::Converter;
use siglus_chs2cht::bytes::compressed_payload;
use siglus_chs2cht::gameexe::{
    convert_gameexe_text, gameexe_key_layer, pack_gameexe, strip_bom, unpack_gameexe, with_bom,
};

fn utf16(s: &str) -> Vec<u8> {
    s.encode_utf16().flat_map(|u| u.to_le_bytes()).collect()
}

fn converter() -> Converter {
    Converter::new("简体\t簡體\n", "简\t簡\n体\t體\n设\t設\n", "", "")
}

#[test]
fn container_roundtrip() {
    for need_key in [false, true] {
        let c = pack_gameexe(&[5, 6, 7], need_key);
        assert_eq!(c.len(), 11);
        assert_eq!(&c[..4], &[0, 0, 0, 0]);
        assert_eq!(unpack_gameexe(&c), (need_key, vec![5, 6, 7]));
    }
    assert_eq!(pack_gameexe(&[], true), vec![0, 0, 0, 0, 1, 0, 0, 0]);
}

#[test]
fn key_flag_is_one_only() {
    assert_eq!(unpack_gameexe(&[0, 0, 0, 0, 2, 0, 0, 0, 9]), (false, vec![9]));
    assert_eq!(unpack_gameexe(&[0, 0, 0, 0, 1, 0, 0, 0]), (true, vec![]));
}

#[test]
fn byte_order_mark() {
    assert_eq!(strip_bom(&[0xFF, 0xFE, 1, 2]), vec![1, 2]);
    assert_eq!(strip_bom(&[0xFE, 0xFF, 1, 2]), vec![0xFE, 0xFF, 1, 2]);
    assert_eq!(strip_bom(&[0xFF]), vec![0xFF]);
    assert_eq!(with_bom(&[3]), vec![0xFF, 0xFE, 3]);
    assert_eq!(strip_bom(&with_bom(&[0xFF, 0xFE])), vec![0xFF, 0xFE]);
}

#[test]
fn payload_header() {
    assert_eq!(compressed_payload(&[9, 9, 9, 9, 0x10, 0x01, 0, 0, 7, 8]), (0x110, vec![7, 8]));
}

#[test]
fn gameexe_key_layer_applies_only_with_flag() {
    let key = [3u8; 16];
    assert_eq!(gameexe_key_layer(&[1, 2], true, Some(&key)), vec![2, 1]);
    assert_eq!(gameexe_key_layer(&[1, 2], false, Some(&key)), vec![1, 2]);
    assert_eq!(gameexe_key_layer(&[1, 2], true, None), vec![1, 2]);
}

#[test]
fn converts_quoted_values_of_settings() {
    let ini = [vec![0xFF, 0xFE], utf16("#CAPTION = \"简体\"\n#FONT = \"simhei.ttf\"\nplain \"简\"\n#X=a\"设\"b\"体")].concat();
    let out = convert_gameexe_text(&ini, &converter());
    let expected = utf16("#CAPTION = \"簡體\"\n#FONT = \"simhei.ttf\"\nplain \"简\"\n#X=a\"設\"b");
    assert_eq!(out, expected);
}

#[test]
fn lines_without_hash_or_equals_are_kept() {
    let ini = utf16("简=\"简\"\n#简 \"简\"\n\n");
    assert_eq!(convert_gameexe_text(&ini, &converter()), ini);
}

#[test]
fn only_the_part_after_the_first_equals_is_converted() {
    let ini = utf16("#A\"简\"=\"简\"=\"体\"");
    let out = convert_gameexe_text(&ini, &converter());
    assert_eq!(out, utf16("#A\"简\"=\"簡\"=\"體\""));
}

#[test]
fn every_file_extension_is_kept() {
    for ext in ["ttf", "otf", "png", "bmp", "ogg", "wav"] {
        let s = format!("#F=\"简.{}\"", ext);
        assert_eq!(convert_gameexe_text(&utf16(&s), &converter()), utf16(&s));
    }
    let s = "#F=\"简.TTF\"";
    assert_eq!(convert_gameexe_text(&utf16(s), &converter()), utf16("#F=\"簡.TTF\""));
}

#[test]
fn empty_settings_give_empty_text() {
    assert_eq!(convert_gameexe_text(&[], &converter()), Vec::<u8>::new());
    assert_eq!(convert_gameexe_text(&[0xFF, 0xFE], &converter()), Vec::<u8>::new());
}

#[test]
fn exactly_one_byte_order_mark_is_dropped() {
    let x = vec![1u8, 2, 3];
    assert_eq!(strip_bom(&[vec![0xFF, 0xFE], x.clone()].concat()), strip_bom(&x));
    assert_eq!(strip_bom(&[0xFF, 0xFE, 0xFF, 0xFE, 1]), vec![0xFF, 0xFE, 1]);
}

#[test]
fn no_key_means_all_zero_key() {
    let data = vec![9u8, 8, 7];
    let zero = [0u8; 16];
    assert_eq!(gameexe_key_layer(&data, true, None), gameexe_key_layer(&data, true, Some(&zero)));
    let key = [0x55u8; 16];
    assert_eq!(gameexe_key_layer(&data, false, Some(&key)), data);
}
