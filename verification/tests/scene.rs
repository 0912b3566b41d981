use siglus_chs2cht::scene::{
    check_scene_tables, pack_scene, pack_scene_ok, scene_extra_key_use, scene_file_names,
    scene_key_layer, strip_ss_suffix, unpack_scene, SceneError,
};

fn le(x: u32) -> [u8; 4] {
    x.to_le_bytes()
}

/// A scene pack with scenes "a" and "bc", blocks [1, 2, 3] and [4, 5].
fn build_pack(extra_key_use: u32) -> Vec<u8> {
    let mut fields = vec![0u32; 21];
    fields[12] = 88; // name index
    fields[13] = 2;
    fields[14] = 104; // names
    fields[15] = 2;
    fields[16] = 110; // block table
    fields[17] = 2;
    fields[18] = 126; // blocks
    fields[19] = 2;
    fields[20] = extra_key_use;
    let mut d = vec![0u8; 4];
    for f in &fields {
        d.extend_from_slice(&le(*f));
    }
    d.extend_from_slice(&[le(0), le(1), le(1), le(2)].concat());
    d.extend_from_slice(&[b'a', 0, b'b', 0, b'c', 0]);
    d.extend_from_slice(&[le(0), le(3), le(3), le(2)].concat());
    d.extend_from_slice(&[1, 2, 3, 4, 5]);
    d
}

#[test]
fn unpacks_names_and_blocks() {
    let d = build_pack(0);
    assert!(check_scene_tables(&d));
    let scenes = unpack_scene(&d, None).unwrap();
    assert_eq!(
        scenes,
        vec![("a.ss".to_string(), vec![1, 2, 3]), ("bc.ss".to_string(), vec![4, 5])]
    );
    assert_eq!(scene_file_names(&d).unwrap(), vec!["a.ss".to_string(), "bc.ss".to_string()]);
}

#[test]
fn truncated_header_is_an_error() {
    let d = build_pack(0);
    assert_eq!(unpack_scene(&d[..87], None), Err(SceneError::TruncatedHeader));
    assert_eq!(pack_scene(&d[..10], &[]), Err(SceneError::TruncatedHeader));
    assert_eq!(scene_file_names(&[]), Err(SceneError::TruncatedHeader));
    assert!(!check_scene_tables(&d[..87]));
}

#[test]
fn tables_outside_the_pack_are_refused() {
    let d = build_pack(0);
    assert!(!check_scene_tables(&d[..d.len() - 1]));
    let mut bad = d.clone();
    bad[4 + 4 * 19] = 3; // three blocks but only two table entries
    assert!(!check_scene_tables(&bad));
}

#[test]
fn extra_key_layer_with_zero_key_keeps_blocks() {
    let d = build_pack(1);
    let scenes = unpack_scene(&d, None).unwrap();
    assert_eq!(scenes[0].1, vec![1, 2, 3]);
}

#[test]
fn extra_key_layer_with_key() {
    let d = build_pack(1);
    let mut key = [0u8; 16];
    key[0] = 0xFF;
    key[1] = 0x01;
    let scenes = unpack_scene(&d, Some(&key)).unwrap();
    assert_eq!(scenes[0].1, vec![0xFE, 3, 3]);
    assert_eq!(scenes[1].1, vec![0xFB, 4]);
    assert_eq!(scene_key_layer(&scenes[0].1, 1, Some(&key)), vec![1, 2, 3]);
    assert_eq!(scene_key_layer(&[7, 8], 0, Some(&key)), vec![7, 8]);
}

#[test]
fn key_repeats_every_16_bytes() {
    let mut key = [0u8; 16];
    key[0] = 1;
    let block = vec![0u8; 17];
    let out = scene_key_layer(&block, 5, Some(&key));
    assert_eq!(out[0], 1);
    assert_eq!(out[16], 1);
    assert_eq!(out[1], 0);
}

#[test]
fn pack_replaces_blocks_and_rebuilds_table() {
    let d = build_pack(0);
    let reps = vec![None, Some(vec![9, 9, 9, 9])];
    assert!(pack_scene_ok(&d, &reps));
    let out = pack_scene(&d, &reps).unwrap();
    let mut expected = d[..110].to_vec();
    expected.extend_from_slice(&[le(0), le(3), le(3), le(4)].concat());
    expected.extend_from_slice(&[1, 2, 3, 9, 9, 9, 9]);
    assert_eq!(out, expected);
    let scenes = unpack_scene(&out, None).unwrap();
    assert_eq!(
        scenes,
        vec![("a.ss".to_string(), vec![1, 2, 3]), ("bc.ss".to_string(), vec![9, 9, 9, 9])]
    );
}

#[test]
fn pack_without_replacements_gives_back_the_pack() {
    let d = build_pack(0);
    assert_eq!(pack_scene(&d, &[None, None]).unwrap(), d);
}

#[test]
fn pack_needs_one_slot_per_block() {
    let d = build_pack(0);
    assert!(!pack_scene_ok(&d, &[None]));
}

#[test]
fn extra_key_flag_is_read_from_the_header() {
    assert_eq!(scene_extra_key_use(&build_pack(0)), Ok(0));
    assert_eq!(scene_extra_key_use(&build_pack(7)), Ok(7));
    assert_eq!(scene_extra_key_use(&[0u8; 20]), Err(SceneError::TruncatedHeader));
}

#[test]
fn script_names_lose_their_extension() {
    assert_eq!(strip_ss_suffix("seen0001.ss"), "seen0001");
    assert_eq!(strip_ss_suffix("名前.ss"), "名前");
    assert_eq!(strip_ss_suffix("a.ss.ss"), "a.ss");
    assert_eq!(strip_ss_suffix("plain"), "plain");
    assert_eq!(strip_ss_suffix(".ss"), "");
    assert_eq!(strip_ss_suffix("ss"), "ss");
}

#[test]
fn scene_no_key_means_all_zero_key() {
    let zero = [0u8; 16];
    let key = [0x11u8; 16];
    assert_eq!(scene_key_layer(&[4, 5], 1, None), scene_key_layer(&[4, 5], 1, Some(&zero)));
    assert_eq!(scene_key_layer(&[4, 5], 0, Some(&key)), vec![4, 5]);
}

#[test]
fn short_packs_are_errors() {
    assert_eq!(unpack_scene(&[], None), Err(SceneError::TruncatedHeader));
    assert_eq!(pack_scene(&[0u8; 87], &[]), Err(SceneError::TruncatedHeader));
}
