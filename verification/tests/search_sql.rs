use xlsx_searcher::query::{
    alias_query, cell_condition, delete_files_queries, fts_phrase, match_clause, placeholders, search_query,
    sheet_condition, SqlValue,
};

fn t(x: &str) -> SqlValue {
    SqlValue::Text(x.to_string())
}

fn s(v: &[&str]) -> Vec<String> {
    v.iter().map(|x| x.to_string()).collect()
}

const BASE: &str = "SELECT DISTINCT f.filename, f.filepath, s.sheet_name FROM xlsx_files f LEFT JOIN sheets s ON f.id = s.file_id";

#[test]
fn match_clauses_per_mode() {
    assert_eq!(match_clause("f.filename", "abc", "exact"), ("LOWER(f.filename) = LOWER(?)".to_string(), t("abc")));
    assert_eq!(match_clause("f.filename", "abc", "prefix"), ("f.filename LIKE ? COLLATE NOCASE".to_string(), t("abc%")));
    assert_eq!(match_clause("f.filename", "abc", "fuzzy"), ("f.filename LIKE ? COLLATE NOCASE".to_string(), t("%abc%")));
    assert_eq!(match_clause("f.filename", "abc", "other"), ("f.filename LIKE ? COLLATE NOCASE".to_string(), t("%abc%")));
}

#[test]
fn full_text_phrases() {
    assert_eq!(fts_phrase("abc"), "\"abc\"");
    assert_eq!(fts_phrase("a\"b"), "\"a\"\"b\"");
}

#[test]
fn cell_conditions() {
    assert_eq!(cell_condition("ab", "fuzzy", true), ("s.cell_text LIKE ? COLLATE NOCASE".to_string(), vec![t("%ab%")]));
    assert_eq!(
        cell_condition("abc", "prefix", true),
        (
            "s.id IN (SELECT rowid FROM sheets_fts WHERE sheets_fts MATCH ?) AND s.cell_text LIKE ? COLLATE NOCASE".to_string(),
            vec![t("\"abc\""), t("abc%")]
        )
    );
    assert_eq!(
        cell_condition("abc", "fuzzy", true),
        ("s.id IN (SELECT rowid FROM sheets_fts WHERE sheets_fts MATCH ?)".to_string(), vec![t("\"abc\"")])
    );
    assert_eq!(cell_condition("abc", "exact", false), ("LOWER(s.cell_text) = LOWER(?)".to_string(), vec![t("abc")]));
}

#[test]
fn sheet_conditions() {
    assert_eq!(
        sheet_condition(&s(&["Hero", "hero", "X"]), "fuzzy", true),
        (
            "(s.sheet_name LIKE ? COLLATE NOCASE OR s.sheet_name LIKE ? COLLATE NOCASE)".to_string(),
            vec![t("%Hero%"), t("%X%")]
        )
    );
    assert_eq!(
        sheet_condition(&s(&["Hero", "Item"]), "exact", true),
        (
            "s.id IN (SELECT rowid FROM sheets_fts_names WHERE sheets_fts_names MATCH ?) AND (LOWER(s.sheet_name) = LOWER(?) OR LOWER(s.sheet_name) = LOWER(?))".to_string(),
            vec![t("\"Hero\" OR \"Item\""), t("Hero"), t("Item")]
        )
    );
}

#[test]
fn search_statement_with_aliases() {
    let (sql, params) = search_query("Hero", "", "", "fuzzy", "filename_asc", false, &s(&["英雄", "hero"]));
    assert_eq!(
        sql,
        format!(
            "{} WHERE (s.sheet_name LIKE ? COLLATE NOCASE OR s.sheet_name LIKE ? COLLATE NOCASE) ORDER BY LOWER(f.filename) ASC, LOWER(s.sheet_name) ASC",
            BASE
        )
    );
    assert_eq!(params, vec![t("%Hero%"), t("%英雄%")]);
}

#[test]
fn search_statement_without_keywords() {
    let (sql, params) = search_query("", "", "", "fuzzy", "filename_desc", true, &[]);
    assert_eq!(sql, format!("{} ORDER BY LOWER(f.filename) DESC, LOWER(s.sheet_name) DESC", BASE));
    assert!(params.is_empty());
}

#[test]
fn search_statement_with_every_condition() {
    let (sql, params) = search_query("ab", "cfg", "xy", "exact", "count_desc", false, &[]);
    assert_eq!(
        sql,
        format!(
            "{} WHERE LOWER(f.filename) = LOWER(?) AND (LOWER(s.sheet_name) = LOWER(?)) AND LOWER(s.cell_text) = LOWER(?) ORDER BY LOWER(f.filename) ASC, LOWER(s.sheet_name) ASC",
            BASE
        )
    );
    assert_eq!(params, vec![t("cfg"), t("ab"), t("xy")]);
}

#[test]
fn alias_lookup_statement() {
    assert_eq!(alias_query("", "fuzzy"), None);
    assert_eq!(
        alias_query("hero", "exact"),
        Some((
            "SELECT DISTINCT sheet_name FROM sheet_aliases WHERE LOWER(alias_name) = LOWER(?) ORDER BY LOWER(sheet_name)".to_string(),
            t("hero")
        ))
    );
}

#[test]
fn placeholder_lists() {
    assert_eq!(placeholders(3), "?,?,?");
    assert_eq!(placeholders(0), "");
    assert_eq!(
        delete_files_queries(2),
        ("DELETE FROM sheets WHERE file_id IN (?,?)".to_string(), "DELETE FROM xlsx_files WHERE id IN (?,?)".to_string())
    );
}
