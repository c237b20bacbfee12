use xlsx_searcher::indexing::{deep_index_updates, group_pending_by_file, plan_file_batch, CellText, FileOp};
use xlsx_searcher::jobs::{after_deep_index, after_scan, after_scan_deep_index, JobState};
use xlsx_searcher::workbook::{read_sheet_with_hits, sheet_names, sheet_xml_path, workbook_sheet_r_id, SheetSource};

const WORKBOOK: &[u8] = br#"<?xml version="1.0"?>
<workbook xmlns="http://schemas.openxmlformats.org/spreadsheetml/2006/main" xmlns:r="http://schemas.openxmlformats.org/officeDocument/2006/relationships">
<sheets>
<sheet name="SheetA" sheetId="1" r:id="rId1"/>
<sheet name="SheetB" sheetId="2" r:id="rId2"/>
</sheets>
</workbook>"#;

const RELS: &[u8] = br#"<?xml version="1.0"?>
<Relationships xmlns="http://schemas.openxmlformats.org/package/2006/relationships">
<Relationship Id="rId1" Type="http://schemas.openxmlformats.org/officeDocument/2006/relationships/worksheet" Target="worksheets/sheet1.xml"/>
<Relationship Id="rId2" Type="http://schemas.openxmlformats.org/officeDocument/2006/relationships/worksheet" Target="worksheets/sheet2.xml"/>
</Relationships>"#;

fn sheet_xml(rows: &[&[(&str, &str)]]) -> Vec<u8> {
    let mut xml = String::from(
        r#"<?xml version="1.0"?>
<worksheet xmlns="http://schemas.openxmlformats.org/spreadsheetml/2006/main"><sheetData>"#,
    );
    for (row, cells) in rows.iter().enumerate() {
        xml.push_str(&format!(r#"<row r="{}">"#, row + 1));
        for (r, value) in cells.iter() {
            xml.push_str(&format!(r#"<c r="{}" t="inlineStr"><is><t>{}</t></is></c>"#, r, value));
        }
        xml.push_str("</row>");
    }
    xml.push_str("</sheetData></worksheet>");
    xml.into_bytes()
}

fn cell_text(xml: &[u8]) -> String {
    let p = read_sheet_with_hits(
        &SheetSource::Xml { sheet_xml: xml.to_vec(), shared_strings: vec![] },
        None,
        "fuzzy",
        200,
        20,
        50,
        Some(1),
        Some(1),
    );
    let p = p.unwrap();
    let mut text = CellText::new(50_000_000);
    for row in p.data.iter().skip(1) {
        for v in row {
            text.push(v.clone());
        }
    }
    let mut all = CellText::new(50_000_000);
    for v in p.header_row.iter() {
        all.push(v.clone());
    }
    let head = all.finish();
    let rest = text.finish();
    if rest.is_empty() {
        head
    } else {
        format!("{} {}", head, rest)
    }
}

#[test]
fn deep_index_runs_twice_without_hanging() {
    let path = "/data/dataset.xlsx".to_string();
    let names = sheet_names(&path, Some(WORKBOOK)).unwrap();
    assert_eq!(names, vec!["SheetA".to_string(), "SheetB".to_string()]);
    let r_id = workbook_sheet_r_id(WORKBOOK, "SheetA").unwrap();
    assert_eq!(sheet_xml_path(&r_id, Some(RELS)), "xl/worksheets/sheet1.xml");

    // First scan: the file is new, and its two sheets are left pending.
    let mut job = JobState::default();
    assert!(job.start("scan", "正在扫描...").is_ok());
    let updates = vec![("dataset.xlsx".to_string(), path.clone(), names.clone())];
    let plan = plan_file_batch(&updates, &vec![], &vec![]);
    assert_eq!((plan.added, plan.updated), (1, 0));
    assert_eq!(plan.ops.len(), 3);
    assert!(after_scan(&mut job, Ok((plan.added, plan.updated, 0)), 2), "pending sheets go on to a deep index");
    assert!(job.running);

    // Its two sheets are then deep-indexed.
    let sheet1 = sheet_xml(&[
        &[("A1", "apple"), ("B1", "banana"), ("C1", "orange")],
        &[("A2", "zhang"), ("B2", "100"), ("C2", "beijing")],
    ]);
    let sheet2 = sheet_xml(&[&[("A1", "header"), ("B1", "value")], &[("A2", "hello"), ("B2", "world")]]);
    let pending = vec![(1, "SheetA".to_string(), path.clone()), (2, "SheetB".to_string(), path.clone())];
    let groups = group_pending_by_file(&pending);
    assert_eq!(groups.len(), 1);
    let texts = vec![cell_text(&sheet1), cell_text(&sheet2)];
    assert_eq!(texts[0], "apple banana orange zhang 100 beijing");
    let batch = deep_index_updates(&groups, &vec![Ok(texts.clone())]);
    assert_eq!((batch.processed, batch.errors), (2, 0), "first scan should deep-index all sheets");
    after_scan_deep_index(&mut job, (1, 0, 0), Ok((batch.processed, batch.errors)));
    assert!(!job.running, "job should be finished after first scan: {:?}", job.error);
    assert_eq!(job.error, None);

    // Second scan of the same files: the sheets stay as they are, nothing
    // is pending, and the job ends at once.
    assert!(job.start("scan", "正在扫描...").is_ok());
    let rows = vec![(1, "SheetA".to_string(), Some(texts[0].clone())), (1, "SheetB".to_string(), Some(texts[1].clone()))];
    let plan = plan_file_batch(&updates, &vec![(path.clone(), 1)], &rows);
    assert_eq!(plan.ops, vec![FileOp::UpdateFile { update: 0, file_id: 1, sheet_count: 2 }]);
    assert!(!after_scan(&mut job, Ok((plan.added, plan.updated, 0)), 0));
    assert!(!job.running, "job stuck after second scan");

    // A manual deep index finds nothing pending.
    assert!(job.start("deep_index", "正在深度索引...").is_ok());
    let batch = deep_index_updates(&group_pending_by_file(&vec![]), &vec![]);
    assert_eq!((batch.processed, batch.errors), (0, 0), "second deep index should be a no-op");
    after_deep_index(&mut job, Ok((batch.processed, batch.errors)));
    assert!(!job.running);
    assert_eq!(job.error, None);
}
