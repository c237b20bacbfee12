use xlsx_searcher::sheet_xml::{attr_value, cell_value, col_from_ref_bytes, text_between, unescape, CellKind, ColRef};
use xlsx_searcher::shared_strings::parse_shared_strings;
use xlsx_searcher::bytes::{find_bytes, parse_usize};

#[test]
fn unescape_decodes_named_and_numeric_entities() {
    assert_eq!(unescape(b"&amp;&lt;&gt;&quot;&apos;"), "&<>\"'");
    assert_eq!(unescape(b"&#65;&#x42;&#X43;"), "ABC");
    assert_eq!(unescape(b"&bogus;x"), "&x");
}

#[test]
fn unescape_decodes_entities_between_plain_text() {
    assert_eq!(unescape(b"a&amp;b"), "a&b");
    assert_eq!(unescape(b"&amp;x&gt;"), "&x>");
    assert_eq!(unescape(b"Tom &amp; Jerry &lt;3&gt;"), "Tom & Jerry <3>");
    assert_eq!(unescape(b"x&#233;y&#x4E2D;"), "x\u{e9}y\u{4e2d}");
    assert_eq!(unescape(b"&amp"), "&amp");
    assert_eq!(unescape(b"a &amp; b & c"), "a & b & c");
    assert_eq!(unescape(b"plain"), "plain");
    assert_eq!(unescape(b"a\xffb"), "a\u{fffd}b");
}

#[test]
fn column_letters() {
    assert_eq!(col_from_ref_bytes(b"A1"), ColRef::Col(1));
    assert_eq!(col_from_ref_bytes(b"Z9"), ColRef::Col(26));
    assert_eq!(col_from_ref_bytes(b"AB12"), ColRef::Col(28));
    assert_eq!(col_from_ref_bytes(b"ab3"), ColRef::Col(28));
    assert_eq!(col_from_ref_bytes(b"12"), ColRef::NoLetters);
}

#[test]
fn attribute_values() {
    let tag = b"c r=\"B2\" t='s'";
    let (a, b) = attr_value(tag, b"r").unwrap();
    assert_eq!(&tag[a..b], b"B2");
    let (a, b) = attr_value(tag, b"t").unwrap();
    assert_eq!(&tag[a..b], b"s");
    assert_eq!(attr_value(tag, b"x"), None);
}

#[test]
fn text_between_tags() {
    let hay = b"<is><t>hi</t></is>";
    let ((a, b), next) = text_between(hay, 0, b"<t", b"</t").unwrap();
    assert_eq!(&hay[a..b], b"hi");
    assert_eq!(next, 12);
    assert_eq!(find_bytes(hay, 0, b"</is"), Some(13));
}

#[test]
fn shared_strings_table() {
    let xml = b"<sst><si><t>a</t></si><si/><si><r><t>b</t></r><r><t xml:space=\"preserve\"> c</t></r></si><si><t>x&amp;y</t></si></sst>";
    assert_eq!(
        parse_shared_strings(xml),
        Some(vec!["a".to_string(), String::new(), "b c".to_string(), "x&y".to_string()])
    );
}

#[test]
fn shared_strings_with_an_unclosed_text_tag() {
    assert_eq!(parse_shared_strings(b"<sst><si><t"), None);
}

#[test]
fn cell_values_by_kind() {
    let sst = vec!["first".to_string(), "second".to_string()];
    assert_eq!(cell_value(b"<is><t>hi</t></is>", CellKind::Inline, &sst), "hi");
    assert_eq!(cell_value(b"<is><r><t>a</t></r><r><t>&lt;b</t></r></is>", CellKind::Inline, &sst), "a<b");
    assert_eq!(cell_value(b"<v>1</v>", CellKind::Shared, &sst), "second");
    assert_eq!(cell_value(b"<v>7</v>", CellKind::Shared, &sst), "");
    assert_eq!(cell_value(b"<v>42</v>", CellKind::Number, &sst), "42");
    assert_eq!(cell_value(b"<f>A1</f><v>x</v>", CellKind::Str, &sst), "x");
    assert_eq!(cell_value(b"<is><t>R&amp;D &lt;ok&gt;</t></is>", CellKind::Inline, &sst), "R&D <ok>");
    assert_eq!(cell_value(b"<v>A &amp; B</v>", CellKind::Str, &sst), "A & B");
}

#[test]
fn usize_parsing() {
    assert_eq!(parse_usize(b"42"), Some(42));
    assert_eq!(parse_usize(b"+7"), Some(7));
    assert_eq!(parse_usize(b""), None);
    assert_eq!(parse_usize(b"4a"), None);
    assert_eq!(parse_usize(b"99999999999999999999999"), None);
}
