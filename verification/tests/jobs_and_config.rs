use xlsx_searcher::config::{expand_user_in, parse_app_config, saved_directory};
use xlsx_searcher::jobs::{
    after_deep_index, after_scan, after_scan_deep_index, deep_index_message, may_clear_index, scan_message, JobResult,
    JobState,
};

#[test]
fn one_job_at_a_time() {
    let mut job = JobState::default();
    assert!(job.start("scan", "正在扫描...").is_ok());
    assert!(job.running);
    assert_eq!(job.kind, "scan");
    let before = job.clone();
    assert_eq!(job.start("deep_index", "x"), Err("已有任务正在执行".to_string()));
    assert_eq!(job, before);
    assert_eq!(may_clear_index(&job), Err("任务执行中，请稍后再清空索引".to_string()));
    job.set_progress(3, 7);
    assert_eq!((job.current, job.total), (3, 7));
}

#[test]
fn scan_finishes_with_counts() {
    let mut job = JobState::default();
    job.start("scan", "正在扫描...").unwrap();
    assert!(!after_scan(&mut job, Ok((1, 2, 3)), 0));
    assert!(!job.running);
    assert_eq!(job.message, "扫描完成：新增 1，更新 2，删除 3");
    assert_eq!(job.result, Some(JobResult::Scan { added: 1, updated: 2, deleted: 3 }));
    assert!(may_clear_index(&job).is_ok());
}

#[test]
fn scan_hands_over_to_deep_index() {
    let mut job = JobState::default();
    job.start("scan", "正在扫描...").unwrap();
    assert!(after_scan(&mut job, Ok((1, 0, 0)), 5));
    assert!(job.running);
    assert_eq!(job.message, "扫描完成，正在深度索引...");
    after_scan_deep_index(&mut job, (1, 0, 0), Ok((4, 1)));
    assert!(!job.running);
    assert_eq!(job.message, "扫描完成：新增 1，更新 0，删除 0；已深度索引 4 个子表");
    assert_eq!(
        job.result,
        Some(JobResult::ScanDeepIndexed { added: 1, updated: 0, deleted: 0, deep_indexed: 4, errors: 1 })
    );
}

#[test]
fn failed_jobs_keep_their_error() {
    let mut job = JobState::default();
    job.start("scan", "正在扫描...").unwrap();
    assert!(!after_scan(&mut job, Err("disk".to_string()), 9));
    assert!(!job.running);
    assert_eq!(job.error, Some("disk".to_string()));
    assert_eq!(job.message, "");
    let mut job = JobState::default();
    job.start("deep_index", "x").unwrap();
    after_deep_index(&mut job, Ok((0, 0)));
    assert_eq!(job.message, "深度索引已是最新");
}

#[test]
fn job_messages() {
    assert_eq!(scan_message(10, 0, 2, 0), "扫描完成：新增 10，更新 0，删除 2");
    assert_eq!(deep_index_message(0), "深度索引已是最新");
    assert_eq!(deep_index_message(12), "深度索引完成：已处理 12 个子表");
}

#[test]
fn home_relative_paths() {
    assert_eq!(expand_user_in("~/data", Some("/home/u".to_string())), "/home/u/data");
    assert_eq!(expand_user_in("/abs", Some("/home/u".to_string())), "/abs");
    assert_eq!(expand_user_in("~/x", None), "~/x");
    assert_eq!(expand_user_in("~x", Some("/h".to_string())), "~x");
}

#[test]
fn saved_state_and_config() {
    assert_eq!(saved_directory("{\"directory\":\"/tmp/x\"}"), Some("/tmp/x".to_string()));
    assert_eq!(saved_directory("{\"directory\":3}"), None);
    assert_eq!(saved_directory("not json"), None);
    let c = parse_app_config("app:\n  version: 1.2.3\n  data_dir: ~/.local/X\n");
    assert_eq!(c.version, Some("1.2.3".to_string()));
    assert_eq!(c.data_dir, Some("~/.local/X".to_string()));
    assert_eq!(parse_app_config(": bad: [").version, None);
}
