use siglus_chs2cht::cipher::decrypt_string;
use siglus_chs2cht::converter::Converter;
use siglus_chs2cht::script::{
    check_ss_tables, convert_texts, extract_texts, has_cjk, rebuild_script, replace_texts,
    replace_texts_ok,
};

fn le(x: u32) -> [u8; 4] {
    x.to_le_bytes()
}

fn utf16(s: &str) -> Vec<u8> {
    s.encode_utf16().flat_map(|u| u.to_le_bytes()).collect()
}

fn xor_string(bytes: &[u8], index: usize) -> Vec<u8> {
    let key = (28807u32.wrapping_mul(index as u32) & 0xFFFF) as u16;
    bytes
        .chunks_exact(2)
        .flat_map(|c| (u16::from_le_bytes([c[0], c[1]]) ^ key).to_le_bytes())
        .collect()
}

fn field(d: &[u8], i: usize) -> u32 {
    let o = 4 + 4 * i;
    u32::from_le_bytes([d[o], d[o + 1], d[o + 2], d[o + 3]])
}

/// A scene script with the given strings: header, index, 4 bytes of script
/// data, then the encrypted strings.
fn build_ss(strings: &[&str]) -> Vec<u8> {
    let count = strings.len() as u32;
    let index_offset = 132u32;
    let script_start = index_offset + 8 * count;
    let data_offset = script_start + 4;
    let mut header = vec![0u32; 32];
    header[0] = script_start;
    header[2] = index_offset;
    header[3] = count;
    header[4] = data_offset;
    header[6] = script_start + 2;
    header[7] = 77;
    let mut out = Vec::new();
    out.extend_from_slice(&le(132));
    for h in &header {
        out.extend_from_slice(&le(*h));
    }
    let mut off = 0u32;
    for s in strings {
        let n = s.encode_utf16().count() as u32;
        out.extend_from_slice(&le(off));
        out.extend_from_slice(&le(n));
        off += n;
    }
    out.extend_from_slice(b"SCRP");
    for (i, s) in strings.iter().enumerate() {
        out.extend_from_slice(&xor_string(&utf16(s), i));
    }
    out
}

#[test]
fn string_key_of_index_one() {
    // 28807 = 0x7087: low byte 0x87, high byte 0x70
    assert_eq!(decrypt_string(&[0, 0, 0x87, 0x70], 2, 1), vec![0x87, 0x70, 0x00, 0x00]);
    assert_eq!(decrypt_string(&[1, 2], 1, 0), vec![1, 2]);
}

#[test]
fn string_key_wraps_at_16_bits() {
    // 28807 * 3 = 86421 = 0x15195, low 16 bits 0x5195
    assert_eq!(decrypt_string(&[0, 0], 1, 3), vec![0x95, 0x51]);
}

#[test]
fn string_cipher_is_an_involution() {
    let raw = vec![10u8, 20, 30, 40, 50, 60];
    for idx in [0usize, 1, 7, 65536, 123456] {
        let once = decrypt_string(&raw, 3, idx);
        assert_eq!(decrypt_string(&once, 3, idx), raw);
    }
}

#[test]
fn cjk_detection() {
    let t = |s: &str| has_cjk(&s.chars().collect::<Vec<char>>());
    assert!(t("中"));
    assert!(t("ab\u{3000}"));
    assert!(t("\u{FF01}"));
    assert!(t("\u{20000}"));
    assert!(t("\u{F900}"));
    assert!(!t("hello"));
    assert!(!t("\u{2FFF}"));
    assert!(!t("\u{A000}"));
    assert!(!t(""));
}

#[test]
fn extracts_only_cjk_strings() {
    let d = build_ss(&["你好", "abc", "", "選項"]);
    assert!(check_ss_tables(&d));
    let texts = extract_texts(&d);
    assert_eq!(texts, vec![(0, "你好".to_string()), (3, "選項".to_string())]);
}

#[test]
fn tables_outside_the_file_are_refused() {
    let d = build_ss(&["你好"]);
    assert!(!check_ss_tables(&d[..100]));
    assert!(!check_ss_tables(&d[..d.len() - 1]));
    let mut bad = d.clone();
    bad[4 + 4 * 3] = 50; // count 50: the index table runs past the end
    assert!(!check_ss_tables(&bad));
}

#[test]
fn replaced_texts_read_back() {
    let d = build_ss(&["你好", "abc", "選項"]);
    let new_texts = vec![(0usize, "妳好嗎".to_string()), (2usize, "選擇".to_string()), (9usize, "忽略".to_string())];
    assert!(replace_texts_ok(&d, &new_texts));
    let out = replace_texts(&d, &new_texts);
    assert!(check_ss_tables(&out));
    assert_eq!(extract_texts(&out), vec![(0, "妳好嗎".to_string()), (2, "選擇".to_string())]);
}

#[test]
fn replaced_file_layout() {
    let d = build_ss(&["你好", "abc"]);
    let new_texts = vec![(0usize, "妳好嗎".to_string())];
    let out = replace_texts(&d, &new_texts);
    // header length kept
    assert_eq!(&out[0..4], &le(132));
    // index: (0, 3) and (3, 3)
    assert_eq!(&out[132..148], &[le(0), le(3), le(3), le(3)].concat()[..]);
    // everything from the script data on follows the index (the old strings too)
    assert_eq!(&out[148..d.len()], &d[148..]);
    assert_eq!(&out[148..152], b"SCRP");
    // field 0 points to the script data, field 4 to the new strings
    assert_eq!(field(&out, 0), 148);
    assert_eq!(field(&out, 4), d.len() as u32);
    assert_eq!(field(&out, 6), 150);
    assert_eq!(field(&out, 7), 77);
    assert_eq!(field(&out, 3), 2);
    let strings = [xor_string(&utf16("妳好嗎"), 0), xor_string(&utf16("abc"), 1)].concat();
    assert_eq!(&out[d.len()..], &strings[..]);
}

#[test]
fn later_replacement_of_an_index_wins() {
    let d = build_ss(&["你好"]);
    let new_texts = vec![(0usize, "一".to_string()), (0usize, "二".to_string())];
    let out = replace_texts(&d, &new_texts);
    assert_eq!(extract_texts(&out), vec![(0, "二".to_string())]);
}

#[test]
fn no_replacement_keeps_the_strings() {
    let d = build_ss(&["你好", "abc"]);
    let out = replace_texts(&d, &[]);
    // the strings are written again after a copy of the rest of the file
    assert_eq!(&out[..20], &d[..20]);
    assert_eq!(field(&out, 4), d.len() as u32);
    assert_eq!(&out[d.len()..], &d[152..]);
    assert_eq!(extract_texts(&out), extract_texts(&d));
}

#[test]
fn replacement_by_empty_text_empties_the_string() {
    let d = build_ss(&["你好", "中文"]);
    let out = replace_texts(&d, &[(0usize, String::new())]);
    assert_eq!(extract_texts(&out), vec![(1, "中文".to_string())]);
}

#[test]
fn scene_names_are_not_converted() {
    let c = Converter::new("", "简\t簡\n", "", "");
    let texts = vec![(3usize, "简".to_string()), (5usize, "简单".to_string())];
    let names = vec!["简".to_string(), "other".to_string()];
    assert_eq!(
        convert_texts(&texts, &names, &c),
        vec![(3usize, "简".to_string()), (5usize, "簡单".to_string())]
    );
    assert_eq!(convert_texts(&texts, &[], &c)[0], (3usize, "簡".to_string()));
}

#[test]
fn earlier_replacement_of_a_repeated_index_changes_nothing() {
    let d = build_ss(&["你好", "abc"]);
    let a = vec![(0usize, "一".to_string()), (1usize, "乙".to_string()), (0usize, "二".to_string())];
    let b = vec![(1usize, "乙".to_string()), (0usize, "二".to_string())];
    assert_eq!(replace_texts(&d, &a), replace_texts(&d, &b));
}

#[test]
fn out_of_range_replacements_change_nothing() {
    let d = build_ss(&["你好", "abc"]);
    let a = vec![(5usize, "x".to_string()), (0usize, "一".to_string()), (2usize, "y".to_string())];
    let b = vec![(0usize, "一".to_string())];
    assert_eq!(replace_texts(&d, &a), replace_texts(&d, &b));
}

#[test]
fn unreplaced_strings_keep_their_text() {
    let d = build_ss(&["你好", "中文", "abc"]);
    let out = replace_texts(&d, &[(0usize, "妳好".to_string())]);
    let before = extract_texts(&d);
    let after = extract_texts(&out);
    assert!(before.contains(&(1, "中文".to_string())));
    assert!(after.contains(&(1, "中文".to_string())));
    assert!(!after.iter().any(|p| p.0 == 2));
}

#[test]
fn script_without_replacements_is_kept_byte_for_byte() {
    let d = build_ss(&["abc"]);
    assert_eq!(rebuild_script(&d, &[]), d);
    let r = vec![(0usize, "中".to_string())];
    assert_eq!(rebuild_script(&d, &r), replace_texts(&d, &r));
}
