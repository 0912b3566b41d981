use siglus_chs2cht::converter::Converter;
use siglus_chs2cht::dict::DictPass;

fn chain(st_phrases: &str, st_chars: &str, tw_phrases: &str, tw_variants: &str) -> Converter {
    Converter::new(st_phrases, st_chars, tw_phrases, tw_variants)
}

#[test]
fn converts_through_all_three_passes() {
    let c = chain("", "软\t軟\n件\t件\n", "軟件\t軟體\n", "着\t著\n");
    assert_eq!(c.convert("软件着"), "軟體著");
}

#[test]
fn longest_key_wins() {
    let c = chain("ab\t2\nabc\t3\n", "a\t1\n", "", "");
    assert_eq!(c.convert("abcab"), "32");
    assert_eq!(c.convert("aab"), "12");
}

#[test]
fn characters_without_key_are_kept() {
    let c = chain("", "简\t簡\n", "", "");
    assert_eq!(c.convert("x简y"), "x簡y");
    assert_eq!(c.convert(""), "");
}

#[test]
fn empty_dictionaries_give_back_the_input() {
    let c = chain("", "", "", "");
    assert_eq!(c.convert("任何文字 any text"), "任何文字 any text");
}

#[test]
fn later_line_overrides_earlier_one() {
    let c = chain("", "a\tX\na\tY\n", "", "");
    assert_eq!(c.convert("a"), "Y");
}

#[test]
fn character_table_follows_phrase_table() {
    // the phrase table and the character table form one pass; a key of
    // the character table overrides the same key of the phrase table
    let c = chain("发\t髮\n头发\t頭髮\n", "发\t發\n", "", "");
    assert_eq!(c.convert("发"), "發");
    assert_eq!(c.convert("头发"), "頭髮");
}

#[test]
fn value_is_first_word_after_tab() {
    let c = chain("", "干\t幹 乾 干\n", "", "");
    assert_eq!(c.convert("干"), "幹");
}

#[test]
fn missing_value_maps_key_to_itself() {
    // after trimming, "k\t \u{3000}" becomes "k" and has no tab: no entry;
    // "q\t\u{3000}z" keeps its tab, its first word is "z"
    let c = chain("", "k\t \u{3000}\nq\t\u{3000}z\nm\t \tn", "", "");
    assert_eq!(c.convert("kqm"), "kzn");
}

#[test]
fn blank_and_tabless_lines_are_skipped() {
    let c = chain("\n\n   \nno tab here\n  x\ty  \r\n", "", "", "");
    assert_eq!(c.convert("x no"), "y no");
}

#[test]
fn keys_may_hold_spaces() {
    let c = chain("a b\tZ\n", "", "", "");
    assert_eq!(c.convert("a b"), "Z");
}

#[test]
fn phrase_longer_than_rest_of_text_is_not_matched() {
    let c = chain("abc\tX\n", "", "", "");
    assert_eq!(c.convert("ab"), "ab");
}

#[test]
fn dictionary_values_are_single_words() {
    let text: Vec<char> = "a\tb c\n\u{3000}d\t e\tf\n".chars().collect();
    let d = DictPass::from_text(&text);
    assert_eq!(d.convert(&"ad".chars().collect::<Vec<char>>()), vec!['b', 'e']);
}
