use xlsx_searcher::workbook::{
    descend_into, exceeds_deep_index_limit, is_supported, rels_target, rid_to_sheet_index, sheet_names, sheet_xml_path,
    streams_preview, workbook_sheet_names, workbook_sheet_r_id,
};

const WORKBOOK: &[u8] = br#"<?xml version="1.0"?>
<workbook xmlns="http://schemas.openxmlformats.org/spreadsheetml/2006/main" xmlns:r="http://schemas.openxmlformats.org/officeDocument/2006/relationships">
<sheets>
<sheet name="SheetA" sheetId="1" r:id="rId1"/>
<sheet name="SheetB" sheetId="2" r:id="rId2"/>
</sheets>
</workbook>"#;

const RELS: &[u8] = br#"<?xml version="1.0"?>
<Relationships xmlns="http://schemas.openxmlformats.org/package/2006/relationships">
<Relationship Id="rId1" Type="http://schemas.openxmlformats.org/officeDocument/2006/relationships/worksheet" Target="worksheets/sheet1.xml"/>
<Relationship Id="rId2" Type="http://schemas.openxmlformats.org/officeDocument/2006/relationships/worksheet" Target="worksheets/sheet2.xml"/>
</Relationships>"#;

#[test]
fn supported_extensions() {
    assert!(is_supported("/data/a.XLSX"));
    assert!(is_supported("b.xlsm"));
    assert!(is_supported("c.xls"));
    assert!(!is_supported("d.csv"));
    assert!(!is_supported("noext"));
    assert!(!is_supported("/data/.xlsx"));
    assert!(streams_preview("x.XLSM"));
    assert!(!streams_preview("x.xls"));
}

#[test]
fn names_from_the_workbook_part() {
    assert_eq!(workbook_sheet_names(WORKBOOK), vec!["SheetA".to_string(), "SheetB".to_string()]);
    assert_eq!(sheet_names("f.xlsx", Some(WORKBOOK)), Some(vec!["SheetA".to_string(), "SheetB".to_string()]));
    assert_eq!(sheet_names("f.XLS", Some(WORKBOOK)), None);
    assert_eq!(sheet_names("f.xlsx", None), None);
    assert_eq!(sheet_names("f.xlsx", Some(b"<workbook/>")), None);
}

#[test]
fn sheet_relationships() {
    assert_eq!(workbook_sheet_r_id(WORKBOOK, "SheetB"), Some("rId2".to_string()));
    assert_eq!(workbook_sheet_r_id(WORKBOOK, "Nope"), None);
    assert_eq!(rels_target(RELS, "rId2"), Some("worksheets/sheet2.xml".to_string()));
    assert_eq!(rels_target(RELS, "rId9"), None);
}

#[test]
fn sheet_without_name_ends_the_search() {
    let wb = br#"<workbook><sheets><sheet r:id="rId1"/><sheet name="B" r:id="rId2"/></sheets></workbook>"#;
    assert_eq!(workbook_sheet_r_id(wb, "B"), None);
}

#[test]
fn relationship_numbers() {
    assert_eq!(rid_to_sheet_index("rId7"), 7);
    assert_eq!(rid_to_sheet_index("abc"), 1);
    assert_eq!(rid_to_sheet_index("rId12x"), 1);
    assert_eq!(rid_to_sheet_index("rId99999999999999999999999"), 1);
}

#[test]
fn sheet_part_paths() {
    assert_eq!(sheet_xml_path("rId2", Some(RELS)), "xl/worksheets/sheet2.xml");
    assert_eq!(sheet_xml_path("rId3", Some(RELS)), "xl/worksheets/sheet3.xml");
    assert_eq!(sheet_xml_path("rId14", None), "xl/worksheets/sheet14.xml");
}

#[test]
fn deep_index_size_limit() {
    assert!(!exceeds_deep_index_limit(200 * 1024 * 1024));
    assert!(exceeds_deep_index_limit(200 * 1024 * 1024 + 1));
}

#[test]
fn hidden_directories_are_skipped() {
    assert!(descend_into(0, true, ".root"));
    assert!(!descend_into(1, true, ".git"));
    assert!(descend_into(1, true, "data"));
    assert!(descend_into(2, false, ".hidden.xlsx"));
}
