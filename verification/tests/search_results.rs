use xlsx_searcher::results::{export_csv, group_search_rows, group_sheet_aliases, index_status};
use xlsx_searcher::types::SearchResult;

fn pair(a: &str, b: &str) -> (String, String) {
    (a.to_string(), b.to_string())
}

#[test]
fn index_counts() {
    let st = index_status(3, 10, 4);
    assert_eq!((st.file_count, st.sheet_count, st.indexed_cell_sheet_count, st.pending_deep_index_count), (3, 10, 6, 4));
    assert_eq!(index_status(1, 2, 5).indexed_cell_sheet_count, 0);
}

#[test]
fn aliases_grouped_by_sheet() {
    let idx = group_sheet_aliases(&[pair("hero", "英雄表"), pair("HeroCfg", "英雄表"), pair("item", "道具")]);
    assert_eq!(idx.aliases_of("英雄表"), vec!["hero".to_string(), "HeroCfg".to_string()]);
    assert_eq!(idx.aliases_of("道具"), vec!["item".to_string()]);
    assert!(idx.aliases_of("none").is_empty());
}

fn sample_rows() -> Vec<(String, String, Option<String>)> {
    vec![
        ("a.xlsx".to_string(), "/d/a.xlsx".to_string(), Some("S1".to_string())),
        ("a.xlsx".to_string(), "/d/a.xlsx".to_string(), Some("S2".to_string())),
        ("b.xlsx".to_string(), "/d/b.xlsx".to_string(), None),
    ]
}

#[test]
fn rows_grouped_by_file() {
    let idx = group_sheet_aliases(&[pair("x", "S1")]);
    let r = group_search_rows(&sample_rows(), &idx);
    assert_eq!(r.total_files, 2);
    assert_eq!(r.total_sheets, 2);
    let a = &r.results[0];
    assert_eq!(a.filename, "a.xlsx");
    assert_eq!(a.filepath, "/d/a.xlsx");
    assert_eq!(a.sheet_names, vec!["S1".to_string(), "S2".to_string()]);
    assert_eq!(a.sheet_count, 2);
    assert_eq!(a.sheet_names_display, "S1, S2");
    assert_eq!(a.sheet_aliases, vec![("S1".to_string(), vec!["x".to_string()]), ("S2".to_string(), vec![])]);
    let b = &r.results[1];
    assert_eq!(b.filepath, "/d/b.xlsx");
    assert!(b.sheet_names.is_empty());
    assert_eq!(b.sheet_count, 0);
    assert_eq!(b.sheet_names_display, "");
}

#[test]
fn interleaved_rows_keep_first_appearance_order() {
    let rows = vec![
        ("b.xlsx".to_string(), "/b".to_string(), Some("T".to_string())),
        ("a.xlsx".to_string(), "/a".to_string(), Some("S".to_string())),
        ("b.xlsx".to_string(), "/b".to_string(), Some("U".to_string())),
    ];
    let r = group_search_rows(&rows, &group_sheet_aliases(&[]));
    assert_eq!(r.results.len(), 2);
    assert_eq!(r.results[0].sheet_names, vec!["T".to_string(), "U".to_string()]);
    assert_eq!(r.results[1].sheet_names, vec!["S".to_string()]);
    assert_eq!(r.total_sheets, 3);
}

#[test]
fn csv_export() {
    let idx = group_sheet_aliases(&[pair("x", "S1"), pair("y", "S1")]);
    let r = group_search_rows(&sample_rows(), &idx);
    let csv = export_csv(&r.results);
    assert_eq!(
        csv,
        "\u{feff}文件名,子表名称,别名,文件路径,命中子表数\n\"a.xlsx\",\"S1\",\"x; y\",\"/d/a.xlsx\",2\n\"a.xlsx\",\"S2\",\"\",\"/d/a.xlsx\",2\n\"b.xlsx\",\"\",\"\",\"/d/b.xlsx\",0\n"
    );
}

#[test]
fn csv_fields_double_their_quotes() {
    let r = SearchResult {
        filename: "q\"x.xlsx".to_string(),
        filepath: "/q".to_string(),
        sheet_names: vec![],
        sheet_count: 0,
        sheet_names_display: String::new(),
        sheet_aliases: vec![],
    };
    assert_eq!(export_csv(&vec![r]), "\u{feff}文件名,子表名称,别名,文件路径,命中子表数\n\"q\"\"x.xlsx\",\"\",\"\",\"/q\",0\n");
}
