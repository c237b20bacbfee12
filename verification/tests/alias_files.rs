use xlsx_searcher::alias::{decode_alias_bytes, parse_alias_text};

fn pairs(v: &[(&str, &str)]) -> Vec<(String, String)> {
    v.iter().map(|(a, s)| (a.to_string(), s.to_string())).collect()
}

#[test]
fn readme_mapping_example() {
    let text = "# UI Text Config\nTextConfig UI Text 界面文本\n# Item Config\nItemConfig Item Config 道具配置\n";
    assert_eq!(
        parse_alias_text(text),
        pairs(&[
            ("TextConfig", "UI"),
            ("TextConfig", "Text"),
            ("TextConfig", "界面文本"),
            ("ItemConfig", "Item"),
            ("ItemConfig", "Config"),
            ("ItemConfig", "道具配置"),
        ])
    );
}

#[test]
fn legacy_call_lines_map_every_alias_to_every_sheet() {
    let text = "call set_alias.bat Hero HeroCfg 英雄表 英雄属性";
    assert_eq!(
        parse_alias_text(text),
        pairs(&[("Hero", "英雄表"), ("Hero", "英雄属性"), ("HeroCfg", "英雄表"), ("HeroCfg", "英雄属性")])
    );
}

#[test]
fn legacy_line_without_sheets_gives_nothing() {
    assert_eq!(parse_alias_text("CALL x.bat A B"), Vec::<(String, String)>::new());
}

#[test]
fn comment_lines_are_skipped() {
    let text = "  # note\n:: batch comment\nrem old\nREM x y\nRemark A B\n";
    assert_eq!(parse_alias_text(text), pairs(&[("Remark", "A"), ("Remark", "B")]));
}

#[test]
fn alias_case_duplicates_keep_the_first() {
    let text = "Foo S1\nfoo S1\nFOO S2\n";
    assert_eq!(parse_alias_text(text), pairs(&[("Foo", "S1"), ("FOO", "S2")]));
}

#[test]
fn lines_need_an_ascii_alias_and_a_sheet() {
    assert_eq!(parse_alias_text("Alone\n别名 Sheet\n\n"), Vec::<(String, String)>::new());
}

#[test]
fn windows_line_endings() {
    assert_eq!(parse_alias_text("A S1\r\nB S2\r\n"), pairs(&[("A", "S1"), ("B", "S2")]));
}

#[test]
fn utf8_alias_file_loses_its_bom() {
    let bytes = "\u{feff}Item 道具".as_bytes().to_vec();
    assert_eq!(decode_alias_bytes(&bytes), "Item 道具");
}

#[test]
fn gbk_alias_file_is_decoded() {
    let mut bytes = b"Item ".to_vec();
    bytes.extend_from_slice(&[0xB5, 0xC0, 0xBE, 0xDF]);
    assert_eq!(decode_alias_bytes(&bytes), "Item 道具");
}

#[test]
fn only_comments_and_blank_lines_give_nothing() {
    assert_eq!(parse_alias_text("# A B\n:: C D\nrem E F\n   \n"), Vec::<(String, String)>::new());
}

#[test]
fn inserted_comment_lines_change_nothing() {
    let plain = parse_alias_text("A S1\nB S2");
    assert_eq!(parse_alias_text("A S1\n# c d\nB S2"), plain);
    assert_eq!(parse_alias_text("  \nA S1\nB S2"), plain);
    assert_eq!(parse_alias_text("A S1\nB S2\nREM x y"), plain);
    assert_eq!(parse_alias_text("# one\nA S1\n\n:: two\n  # three\nrem four five\nB S2\n\n"), plain);
}

#[test]
fn joined_texts_give_both_parses_without_repeats() {
    let a = "Foo S1\nBar S2";
    let b = "foo S1\nBaz S3";
    let joined = parse_alias_text(&format!("{}\n{}", a, b));
    assert_eq!(joined, pairs(&[("Foo", "S1"), ("Bar", "S2"), ("Baz", "S3")]));
    let mut both = parse_alias_text(a);
    both.extend(parse_alias_text(b));
    assert_eq!(both.len(), 4);
    assert_eq!(joined, parse_alias_text(&format!("{}\n{}\n{}\n{}", "Foo S1", "Bar S2", "foo S1", "Baz S3")));
}
