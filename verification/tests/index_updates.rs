use xlsx_searcher::indexing::{
    deep_index_updates, files_with_sheets, path_order, group_pending_by_file, ids_to_delete, plan_file_batch, CellText, FileOp,
};

fn s(v: &[&str]) -> Vec<String> {
    v.iter().map(|x| x.to_string()).collect()
}

#[test]
fn batch_plan_for_kept_changed_and_new_files() {
    let updates = vec![
        ("a.xlsx".to_string(), "/a".to_string(), s(&["S1", "S2"])),
        ("b.xlsx".to_string(), "/b".to_string(), s(&["T0", "T"])),
        ("c.xlsx".to_string(), "/c".to_string(), s(&["U"])),
    ];
    let indexed = vec![("/a".to_string(), 1), ("/b".to_string(), 2)];
    let rows = vec![
        (1, "S1".to_string(), Some("t1".to_string())),
        (1, "S2".to_string(), None),
        (2, "T0".to_string(), Some("old".to_string())),
    ];
    let plan = plan_file_batch(&updates, &indexed, &rows);
    assert_eq!((plan.added, plan.updated), (1, 2));
    assert_eq!(
        plan.ops,
        vec![
            FileOp::UpdateFile { update: 0, file_id: 1, sheet_count: 2 },
            FileOp::UpdateFile { update: 1, file_id: 2, sheet_count: 2 },
            FileOp::DeleteSheets { file_id: 2 },
            FileOp::InsertSheet { file: Some(2), sheet_name: "T0".to_string(), cell_text: Some("old".to_string()) },
            FileOp::InsertSheet { file: Some(2), sheet_name: "T".to_string(), cell_text: None },
            FileOp::InsertFile { update: 2, sheet_count: 1 },
            FileOp::InsertSheet { file: None, sheet_name: "U".to_string(), cell_text: None },
        ]
    );
}

#[test]
fn rescan_of_unchanged_files_only_touches_file_rows() {
    let updates = vec![("a.xlsx".to_string(), "/a".to_string(), s(&["S1"]))];
    let plan = plan_file_batch(&updates, &vec![("/a".to_string(), 4)], &vec![(4, "S1".to_string(), Some("x".to_string()))]);
    assert_eq!(plan.ops, vec![FileOp::UpdateFile { update: 0, file_id: 4, sheet_count: 1 }]);
    assert_eq!((plan.added, plan.updated), (0, 1));
}

#[test]
fn files_gone_from_disk() {
    let indexed = vec![("/a".to_string(), 1), ("/b".to_string(), 2), ("/c".to_string(), 3)];
    assert_eq!(ids_to_delete(&indexed, &s(&["/a", "/c"])), vec![2]);
    assert!(ids_to_delete(&indexed, &s(&["/c", "/b", "/a"])).is_empty());
}

#[test]
fn pending_sheets_grouped_by_file() {
    let pending = vec![
        (1, "S1".to_string(), "/a".to_string()),
        (2, "T".to_string(), "/b".to_string()),
        (3, "S2".to_string(), "/a".to_string()),
    ];
    let groups = group_pending_by_file(&pending);
    assert_eq!(
        groups,
        vec![
            ("/a".to_string(), vec![(1, "S1".to_string()), (3, "S2".to_string())]),
            ("/b".to_string(), vec![(2, "T".to_string())]),
        ]
    );
    let batch = deep_index_updates(&groups, &vec![Ok(s(&["x", "y"])), Err("bad".to_string())]);
    assert_eq!(batch.updates, vec![("x".to_string(), 1), ("y".to_string(), 3)]);
    assert_eq!((batch.processed, batch.errors), (2, 1));
    let batch = deep_index_updates(&groups, &vec![Ok(s(&["x"])), Ok(s(&["z"]))]);
    assert_eq!(batch.updates, vec![("x".to_string(), 1), ("z".to_string(), 2)]);
    assert_eq!((batch.processed, batch.errors), (3, 0));
}

#[test]
fn up_to_date_index_has_nothing_to_do() {
    let groups = group_pending_by_file(&vec![]);
    let batch = deep_index_updates(&groups, &vec![]);
    assert!(batch.updates.is_empty());
    assert_eq!((batch.processed, batch.errors), (0, 0));
}

#[test]
fn cell_text_stops_past_the_limit() {
    let mut t = CellText::new(5);
    assert!(t.push("abc".to_string()));
    assert!(t.push(String::new()));
    assert!(!t.push("de".to_string()));
    assert_eq!(t.finish(), "abc de");
}

#[test]
fn files_without_sheets_are_left_out() {
    let names = vec![s(&["Sheet1"]), Vec::new(), s(&["A", "B"]), Vec::new()];
    assert_eq!(files_with_sheets(&names), vec![0, 2]);
    assert!(files_with_sheets(&vec![Vec::new()]).is_empty());
    assert!(files_with_sheets(&Vec::new()).is_empty());
}

#[test]
fn found_files_in_path_order() {
    let paths = s(&["/d/b.xlsx", "/d/a.xlsx", "/d/ä.xlsx", "/d/a.xlsx", "/d/A.xlsx", "/d/a"]);
    let order = path_order(&paths);
    assert_eq!(order, vec![4, 5, 1, 3, 0, 2]);
    let mut sorted = paths.clone();
    sorted.sort();
    assert_eq!(order.iter().map(|&k| paths[k].clone()).collect::<Vec<_>>(), sorted);
    assert!(path_order(&Vec::new()).is_empty());
}
