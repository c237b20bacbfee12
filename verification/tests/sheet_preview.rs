use xlsx_searcher::matching::{cell_matches, contains_ignore_case, match_mode, matches_in_mode, MatchMode};
use xlsx_searcher::preview::{preview_from_grid, preview_from_sheet_xml, preview_window, trim_row};
use xlsx_searcher::types::Hit;
use xlsx_searcher::workbook::{read_sheet_with_hits, SheetSource};

fn s(v: &[&str]) -> Vec<String> {
    v.iter().map(|x| x.to_string()).collect()
}

const SHEET: &[u8] = br#"<worksheet><sheetData><row r="1"><c r="A1" t="inlineStr"><is><t>apple</t></is></c><c r="B1" t="inlineStr"><is><t>banana</t></is></c></row><row r="2"><c r="A2" t="inlineStr"><is><t>zhang</t></is></c><c r="B2"><v>100</v></c></row></sheetData></worksheet>"#;

#[test]
fn match_modes() {
    assert_eq!(match_mode("exact"), MatchMode::Exact);
    assert_eq!(match_mode("prefix"), MatchMode::Prefix);
    assert_eq!(match_mode("EXACT"), MatchMode::Fuzzy);
    assert!(cell_matches("Apple", "APPLE", "exact"));
    assert!(!cell_matches("Apple pie", "apple", "exact"));
    assert!(cell_matches("Apple pie", "app", "prefix"));
    assert!(!cell_matches("pineapple", "app", "prefix"));
    assert!(cell_matches("pineapple", "APP", "fuzzy"));
    assert!(!cell_matches("abc", "", "fuzzy"));
    assert!(!matches_in_mode("é", "\u{e9}x", MatchMode::Prefix));
    assert!(contains_ignore_case("Hello", "LL"));
    assert!(contains_ignore_case("a", ""));
    assert!(!contains_ignore_case("a", "ab"));
}

#[test]
fn rows_lose_trailing_empty_cells() {
    assert_eq!(trim_row(&s(&["a", "", "b", "", ""])), s(&["a", "", "b"]));
    assert_eq!(trim_row(&s(&["", ""])), Vec::<String>::new());
}

#[test]
fn window_placement() {
    assert_eq!(preview_window(None, None, None), (2, 1));
    let h = Hit { row: 10, col: 5, value: "x".to_string() };
    assert_eq!(preview_window(Some(&h), None, None), (7, 3));
    let h = Hit { row: 2, col: 1, value: "x".to_string() };
    assert_eq!(preview_window(Some(&h), None, Some(9)), (1, 1));
    assert_eq!(preview_window(Some(&h), Some(4), None), (4, 1));
    assert_eq!(preview_window(None, Some(4), Some(6)), (4, 6));
}

#[test]
fn xml_preview_around_a_hit() {
    let p = preview_from_sheet_xml(SHEET, &vec![], Some("zhang"), MatchMode::Fuzzy, 200, 20, 50, None, None).unwrap();
    assert_eq!(p.hits, vec![Hit { row: 2, col: 1, value: "zhang".to_string() }]);
    assert_eq!((p.start_row, p.start_col), (1, 1));
    assert_eq!(p.header_row, s(&["apple", "banana"]));
    assert_eq!(p.data, vec![s(&["apple", "banana"]), s(&["zhang", "100"])]);
}

#[test]
fn xml_preview_without_keyword() {
    let p = preview_from_sheet_xml(SHEET, &vec![], None, MatchMode::Fuzzy, 200, 20, 50, None, None).unwrap();
    assert!(p.hits.is_empty());
    assert_eq!((p.start_row, p.start_col), (2, 1));
    assert_eq!(p.header_row, s(&["apple", "banana"]));
    assert_eq!(p.data, vec![s(&["zhang", "100"])]);
}

#[test]
fn xml_preview_hits_stop_at_the_limit() {
    let p = preview_from_sheet_xml(SHEET, &vec![], Some("a"), MatchMode::Fuzzy, 2, 20, 50, None, None).unwrap();
    assert_eq!(p.hits.len(), 2);
    assert_eq!(p.hits[0], Hit { row: 1, col: 1, value: "apple".to_string() });
    assert_eq!(p.hits[1], Hit { row: 1, col: 2, value: "banana".to_string() });
}

#[test]
fn xml_preview_with_header_cell_past_the_window_width() {
    let sheet = br#"<worksheet><sheetData><row r="1"><c r="E1" t="inlineStr"><is><t>far</t></is></c></row></sheetData></worksheet>"#;
    let p = preview_from_sheet_xml(sheet, &vec![], None, MatchMode::Fuzzy, 200, 20, 3, Some(1), Some(5)).unwrap();
    assert_eq!((p.start_row, p.start_col), (1, 5));
    assert!(p.header_row.is_empty());
    assert_eq!(p.data, vec![s(&["far"])]);
}

#[test]
fn xml_preview_of_row_one_far_right() {
    let sheet = br#"<worksheet><sheetData><row r="1"><c r="A1" t="inlineStr"><is><t>id</t></is></c><c r="BH1" t="inlineStr"><is><t>far</t></is></c></row><row r="2"><c r="BH2"><v>7</v></c></row></sheetData></worksheet>"#;
    let p = preview_from_sheet_xml(sheet, &vec![], None, MatchMode::Fuzzy, 200, 20, 50, Some(1), Some(60)).unwrap();
    assert_eq!((p.start_row, p.start_col), (1, 60));
    assert_eq!(p.header_row, s(&["id"]));
    assert_eq!(p.data, vec![s(&["far"]), s(&["7"])]);
}

#[test]
fn xml_preview_with_an_overflowing_row_number() {
    let sheet = br#"<worksheet><sheetData><row r="1"><c r="ZZZZZZZZZZZZZZZZ1"><v>1</v></c></row></sheetData></worksheet>"#;
    assert_eq!(preview_from_sheet_xml(sheet, &vec![], Some("1"), MatchMode::Fuzzy, 200, 20, 50, None, None), None);
}

#[test]
fn grid_preview_around_a_hit() {
    let grid = vec![s(&["apple", "banana"]), s(&["zhang", "100", ""])];
    let p = preview_from_grid(&grid, Some("zhang"), MatchMode::Exact, 200, 20, 50, None, None);
    assert_eq!(p.hits, vec![Hit { row: 2, col: 1, value: "zhang".to_string() }]);
    assert_eq!((p.start_row, p.start_col), (1, 1));
    assert_eq!(p.header_row, s(&["apple", "banana"]));
    assert_eq!(p.data, vec![s(&["apple", "banana"]), s(&["zhang", "100"])]);
}

#[test]
fn grid_preview_narrow_window() {
    let grid = vec![s(&["a", "b", "c"]), s(&["d", "e", "f"]), s(&["g"])];
    let p = preview_from_grid(&grid, None, MatchMode::Fuzzy, 200, 5, 1, Some(2), Some(2));
    assert_eq!(p.header_row, s(&["a"]));
    assert_eq!(p.data, vec![s(&["e"]), vec![]]);
    let p = preview_from_grid(&grid, None, MatchMode::Fuzzy, 200, 5, 1, Some(2), Some(3));
    assert_eq!(p.data, vec![s(&["f"]), vec![]]);
}

#[test]
fn grid_preview_start_column_past_the_rows() {
    let grid = vec![s(&["a", "b", "c"]), s(&["d", "e", "f"]), s(&["g", "h", "i"])];
    let p = preview_from_grid(&grid, None, MatchMode::Fuzzy, 200, 20, 50, Some(2), Some(10));
    assert_eq!((p.start_row, p.start_col), (2, 10));
    assert_eq!(p.data, vec![Vec::<String>::new(), Vec::new()]);
    assert_eq!(p.header_row, s(&["a", "b", "c"]));
}

#[test]
fn read_sheet_from_either_source() {
    let xml = SheetSource::Xml { sheet_xml: SHEET.to_vec(), shared_strings: vec![] };
    let p = read_sheet_with_hits(&xml, Some("100"), "exact", 200, 20, 50, None, None).unwrap();
    assert_eq!(p.hits, vec![Hit { row: 2, col: 2, value: "100".to_string() }]);
    let grid = SheetSource::Grid(vec![s(&["apple", "banana"]), s(&["zhang", "100"])]);
    let p = read_sheet_with_hits(&grid, Some("ban"), "prefix", 200, 20, 50, None, None).unwrap();
    assert_eq!(p.hits, vec![Hit { row: 1, col: 2, value: "banana".to_string() }]);
    assert_eq!((p.start_row, p.start_col), (1, 1));
}

const SHEET_FOUR_ROWS: &[u8] = br#"<worksheet><sheetData><row r="1"><c r="A1" t="inlineStr"><is><t>id</t></is></c><c r="C1" t="inlineStr"><is><t>name</t></is></c></row><row r="2"><c r="A2"><v>1</v></c><c r="C2" t="inlineStr"><is><t>alpha</t></is></c></row><row r="4"><c r="B4" t="inlineStr"><is><t>beta</t></is></c></row></sheetData></worksheet>"#;

#[test]
fn both_readers_agree_for_every_start_row() {
    let grid = vec![s(&["id", "", "name"]), s(&["1", "", "alpha"]), s(&["", "", ""]), s(&["", "beta", ""]), s(&["", "", ""])];
    for (keyword, start_row) in [
        (Some("beta"), Some(4)),
        (Some("alpha"), Some(2)),
        (None, None),
        (Some("zzz"), Some(3)),
        (Some("beta"), None),
        (None, Some(1)),
        (None, Some(0)),
    ] {
        let x = preview_from_sheet_xml(SHEET_FOUR_ROWS, &vec![], keyword, MatchMode::Fuzzy, 200, 20, 50, start_row, None).unwrap();
        let g = preview_from_grid(&grid, keyword, MatchMode::Fuzzy, 200, 20, 50, start_row, None);
        assert_eq!(x.hits, g.hits);
        assert_eq!(x.header_row, g.header_row);
        assert_eq!((x.start_row, x.start_col), (g.start_row, g.start_col));
        assert!(x.data.len() <= g.data.len());
        assert_eq!(x.data[..], g.data[..x.data.len()]);
        assert!(g.data[x.data.len()..].iter().all(|r| r.is_empty()));
    }
    let x = preview_from_sheet_xml(SHEET_FOUR_ROWS, &vec![], Some("alpha"), MatchMode::Fuzzy, 200, 20, 50, Some(2), None).unwrap();
    assert_eq!(x.data, vec![s(&["1", "", "alpha"]), vec![], s(&["", "beta"])]);
    assert_eq!(x.header_row, s(&["id", "", "name"]));
    let x = preview_from_sheet_xml(SHEET_FOUR_ROWS, &vec![], None, MatchMode::Fuzzy, 200, 20, 50, Some(1), None).unwrap();
    assert_eq!(x.data[0], s(&["id", "", "name"]));
}
